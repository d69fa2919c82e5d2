//! The layout of the embedded reference datasets: a header line, then one
//! observation per non-blank line, fields separated by commas, surrounding
//! white space ignored.

use vstd::prelude::*;

verus! {

/// `c` has the Unicode `White_Space` property.
pub open spec fn is_white_space(c: char) -> bool {
    let u = c as u32;
    ||| 0x9 <= u <= 0xD
    ||| u == 0x20
    ||| u == 0x85
    ||| u == 0xA0
    ||| u == 0x1680
    ||| 0x2000 <= u <= 0x200A
    ||| u == 0x2028
    ||| u == 0x2029
    ||| u == 0x202F
    ||| u == 0x205F
    ||| u == 0x3000
}

/// Whether `c` is white space.
pub fn white_space(c: char) -> (w: bool)
    ensures
        w == is_white_space(c),
{
    let u = c as u32;
    (0x9 <= u && u <= 0xD) || u == 0x20 || u == 0x85 || u == 0xA0 || u == 0x1680 || (0x2000 <= u
        && u <= 0x200A) || u == 0x2028 || u == 0x2029 || u == 0x202F || u == 0x205F || u == 0x3000
}

/// `s` cut at every `sep`: the pieces between separators, in order, empty
/// ones included (one piece more than there are separators).
pub open spec fn pieces_of(s: Seq<char>, sep: char) -> Seq<Seq<char>>
    decreases s.len(),
{
    if s.len() == 0 {
        seq![Seq::<char>::empty()]
    } else {
        let prev = pieces_of(s.drop_last(), sep);
        if s.last() == sep {
            prev.push(Seq::<char>::empty())
        } else {
            prev.update(prev.len() - 1, prev.last().push(s.last()))
        }
    }
}

/// `s` without its leading white space.
pub open spec fn trim_start_of(s: Seq<char>) -> Seq<char>
    decreases s.len(),
{
    if s.len() > 0 && is_white_space(s[0]) {
        trim_start_of(s.drop_first())
    } else {
        s
    }
}

/// `s` without its trailing white space.
pub open spec fn trim_end_of(s: Seq<char>) -> Seq<char>
    decreases s.len(),
{
    if s.len() > 0 && is_white_space(s.last()) {
        trim_end_of(s.drop_last())
    } else {
        s
    }
}

/// `s` without leading and trailing white space.
pub open spec fn trim_of(s: Seq<char>) -> Seq<char> {
    trim_end_of(trim_start_of(s))
}

/// The lines of `text`: the pieces between newlines, a final empty piece
/// (after a closing newline, or of an empty text) not counted.
pub open spec fn lines_of(text: Seq<char>) -> Seq<Seq<char>> {
    let p = pieces_of(text, '\n');
    if p.last().len() == 0 {
        p.drop_last()
    } else {
        p
    }
}

/// The trimmed fields of a line.
pub open spec fn fields_of(line: Seq<char>) -> Seq<Seq<char>> {
    pieces_of(line, ',').map_values(|f: Seq<char>| trim_of(f))
}

/// The lines after the header, trimmed, blank ones dropped.
pub open spec fn body_lines_of(text: Seq<char>) -> Seq<Seq<char>> {
    let ls = lines_of(text);
    let body = if ls.len() == 0 { ls } else { ls.drop_first() };
    body.map_values(|l: Seq<char>| trim_of(l)).filter(|l: Seq<char>| l.len() > 0)
}

/// The records of `text`: for every non-blank line after the header, its
/// trimmed comma-separated fields.
pub open spec fn records_of(text: Seq<char>) -> Seq<Seq<Seq<char>>> {
    body_lines_of(text).map_values(|l: Seq<char>| fields_of(l))
}

/// The lines after the header whose text is not blank, as written.
pub open spec fn nonblank_lines_after_header(text: Seq<char>) -> Seq<Seq<char>> {
    let ls = lines_of(text);
    let after = if ls.len() == 0 { ls } else { ls.drop_first() };
    after.filter(|l: Seq<char>| trim_of(l).len() > 0)
}

proof fn lemma_filter_after_map<A, B>(s: Seq<A>, f: spec_fn(A) -> B, p: spec_fn(B) -> bool)
    ensures
        s.map_values(f).filter(p) == s.filter(|x: A| p(f(x))).map_values(f),
    decreases s.len(),
{
    let q = |x: A| p(f(x));
    if s.len() == 0 {
        assert(s.map_values(f).filter(p) =~= Seq::<B>::empty()) by {
            reveal(Seq::filter);
        }
        assert(s.filter(q) =~= Seq::<A>::empty()) by {
            reveal(Seq::filter);
        }
        assert(s.filter(q).map_values(f) =~= Seq::<B>::empty());
    } else {
        let s1 = s.drop_last();
        let x = s.last();
        assert(s =~= s1.push(x));
        lemma_filter_after_map(s1, f, p);
        assert(s.map_values(f) =~= s1.map_values(f).push(f(x)));
        s1.map_values(f).lemma_filter_push(f(x), p);
        s1.lemma_filter_push(x, q);
        assert(s.filter(q).map_values(f) =~= s.map_values(f).filter(p));
    }
}

/// Record law: every line after the header whose text is not blank gives
/// exactly one record, in order, whatever characters it holds: record `i`
/// is the trimmed comma-separated fields of the `i`-th such line.
pub proof fn lemma_records_follow_nonblank_lines(text: Seq<char>)
    ensures
        records_of(text).len() == nonblank_lines_after_header(text).len(),
        forall|i: int|
            0 <= i < records_of(text).len() ==> #[trigger] records_of(text)[i] == fields_of(
                trim_of(nonblank_lines_after_header(text)[i]),
            ),
{
    let ls = lines_of(text);
    let after = if ls.len() == 0 { ls } else { ls.drop_first() };
    let t = |l: Seq<char>| trim_of(l);
    let nonempty = |l: Seq<char>| l.len() > 0;
    lemma_filter_after_map(after, t, nonempty);
    let kept = after.filter(|x: Seq<char>| nonempty(t(x)));
    assert(kept =~= nonblank_lines_after_header(text)) by {
        assert((|x: Seq<char>| nonempty(t(x))) =~= (|l: Seq<char>| trim_of(l).len() > 0));
    }
    assert(body_lines_of(text) == kept.map_values(t));
}

/// The view of a list of character vectors.
pub open spec fn texts_view(v: Seq<Vec<char>>) -> Seq<Seq<char>> {
    v.map_values(|x: Vec<char>| x@)
}

/// The view of a list of records.
pub open spec fn records_view(v: Seq<Vec<Vec<char>>>) -> Seq<Seq<Seq<char>>> {
    v.map_values(|r: Vec<Vec<char>>| texts_view(r@))
}

/// `s` cut at every `sep`.
pub fn split_pieces(s: &Vec<char>, sep: char) -> (pieces: Vec<Vec<char>>)
    ensures
        texts_view(pieces@) == pieces_of(s@, sep),
        pieces@.len() >= 1,
{
    let mut done: Vec<Vec<char>> = Vec::new();
    let mut cur: Vec<char> = Vec::new();
    let mut i: usize = 0;
    proof {
        assert(s@.take(0) =~= Seq::<char>::empty());
        assert(texts_view(done@).push(cur@) =~= pieces_of(s@.take(0), sep));
    }
    while i < s.len()
        invariant
            i <= s@.len(),
            texts_view(done@).push(cur@) == pieces_of(s@.take(i as int), sep),
        decreases s@.len() - i,
    {
        let c = s[i];
        let ghost before = s@.take(i as int);
        proof {
            assert(s@.take(i + 1).drop_last() =~= before);
            assert(s@.take(i + 1).last() == c);
        }
        if c == sep {
            let full = cur;
            done.push(full);
            cur = Vec::new();
            proof {
                assert(texts_view(done@) =~= texts_view(done@.drop_last()).push(full@));
                assert(texts_view(done@).push(cur@) =~= pieces_of(s@.take(i + 1), sep));
            }
        } else {
            let ghost prev_cur = cur@;
            cur.push(c);
            proof {
                let prev = pieces_of(before, sep);
                assert(prev == texts_view(done@).push(prev_cur));
                assert(texts_view(done@).push(cur@) =~= prev.update(prev.len() - 1, prev.last().push(c)));
            }
        }
        i = i + 1;
    }
    let last = cur;
    done.push(last);
    proof {
        assert(s@.take(s@.len() as int) =~= s@);
        assert(texts_view(done@) =~= texts_view(done@.drop_last()).push(last@));
    }
    done
}

proof fn lemma_trim_start_skip(s: Seq<char>, a: int)
    requires
        0 <= a <= s.len(),
        forall|k: int| 0 <= k < a ==> is_white_space(#[trigger] s[k]),
    ensures
        trim_start_of(s) == trim_start_of(s.skip(a)),
    decreases a,
{
    if a > 0 {
        assert(s.drop_first().skip(a - 1) =~= s.skip(a));
        lemma_trim_start_skip(s.drop_first(), a - 1);
    } else {
        assert(s.skip(0) =~= s);
    }
}

proof fn lemma_trim_end_take(s: Seq<char>, b: int)
    requires
        0 <= b <= s.len(),
        forall|k: int| b <= k < s.len() ==> is_white_space(#[trigger] s[k]),
    ensures
        trim_end_of(s) == trim_end_of(s.take(b)),
    decreases s.len() - b,
{
    if b < s.len() {
        assert(s.drop_last().take(b) =~= s.take(b));
        lemma_trim_end_take(s.drop_last(), b);
    } else {
        assert(s.take(b) =~= s);
    }
}

proof fn lemma_trim_start_shape(s: Seq<char>) -> (a: int)
    ensures
        0 <= a <= s.len(),
        trim_start_of(s) == s.skip(a),
        forall|k: int| 0 <= k < a ==> is_white_space(#[trigger] s[k]),
        a < s.len() ==> !is_white_space(s[a]),
    decreases s.len(),
{
    if s.len() > 0 && is_white_space(s[0]) {
        let a1 = lemma_trim_start_shape(s.drop_first());
        assert(s.drop_first().skip(a1) =~= s.skip(a1 + 1));
        assert forall|k: int| 0 <= k < a1 + 1 implies is_white_space(#[trigger] s[k]) by {
            if k > 0 {
                assert(s[k] == s.drop_first()[k - 1]);
            }
        }
        if a1 + 1 < s.len() {
            assert(s[a1 + 1] == s.drop_first()[a1]);
        }
        a1 + 1
    } else {
        assert(s.skip(0) =~= s);
        0
    }
}

proof fn lemma_trim_end_shape(s: Seq<char>) -> (b: int)
    ensures
        0 <= b <= s.len(),
        trim_end_of(s) == s.take(b),
        forall|k: int| b <= k < s.len() ==> is_white_space(#[trigger] s[k]),
        b > 0 ==> !is_white_space(s[b - 1]),
    decreases s.len(),
{
    if s.len() > 0 && is_white_space(s.last()) {
        let b1 = lemma_trim_end_shape(s.drop_last());
        assert(s.drop_last().take(b1) =~= s.take(b1));
        assert forall|k: int| b1 <= k < s.len() implies is_white_space(#[trigger] s[k]) by {
            if k < s.len() - 1 {
                assert(s[k] == s.drop_last()[k]);
            }
        }
        if b1 > 0 {
            assert(s[b1 - 1] == s.drop_last()[b1 - 1]);
        }
        b1
    } else {
        assert(s.take(s.len() as int) =~= s);
        s.len() as int
    }
}

/// Trimming law: the trimmed text is a stretch `s[a..b]` of `s`; all that
/// lies before `a` and from `b` on is white space, and the stretch, when not
/// empty, neither begins nor ends with white space. Returns `(a, b)`.
pub proof fn lemma_trim_strips_only_outer_white_space(s: Seq<char>) -> (bounds: (int, int))
    ensures
        0 <= bounds.0 <= bounds.1 <= s.len(),
        trim_of(s) == s.subrange(bounds.0, bounds.1),
        forall|k: int| 0 <= k < bounds.0 ==> is_white_space(#[trigger] s[k]),
        forall|k: int| bounds.1 <= k < s.len() ==> is_white_space(#[trigger] s[k]),
        trim_of(s).len() > 0 ==> !is_white_space(trim_of(s)[0]) && !is_white_space(
            trim_of(s).last(),
        ),
{
    let a = lemma_trim_start_shape(s);
    let rest = s.skip(a);
    let b = lemma_trim_end_shape(rest);
    assert(rest.take(b) =~= s.subrange(a, a + b));
    assert forall|k: int| a + b <= k < s.len() implies is_white_space(#[trigger] s[k]) by {
        assert(s[k] == rest[k - a]);
    }
    if b > 0 {
        assert(trim_of(s)[0] == s[a]);
        assert(trim_of(s).last() == rest[b - 1]);
    }
    (a, a + b)
}

/// `pieces` put back together, one `sep` between neighbours.
pub open spec fn joined(pieces: Seq<Seq<char>>, sep: char) -> Seq<char>
    decreases pieces.len(),
{
    if pieces.len() <= 1 {
        if pieces.len() == 0 { Seq::empty() } else { pieces[0] }
    } else {
        joined(pieces.drop_last(), sep).push(sep) + pieces.last()
    }
}

proof fn lemma_joined_extend_last(ps: Seq<Seq<char>>, sep: char, c: char)
    requires
        ps.len() >= 1,
    ensures
        joined(ps.update(ps.len() - 1, ps.last().push(c)), sep) == joined(ps, sep).push(c),
{
    let qs = ps.update(ps.len() - 1, ps.last().push(c));
    if ps.len() == 1 {
        assert(qs[0] == ps[0].push(c));
    } else {
        assert(qs.drop_last() =~= ps.drop_last());
        assert(qs.last() == ps.last().push(c));
        assert(joined(ps.drop_last(), sep).push(sep) + ps.last().push(c) =~= (joined(
            ps.drop_last(),
            sep,
        ).push(sep) + ps.last()).push(c));
    }
}

/// Splitting law: cutting `s` at every `sep` gives at least one piece, no
/// piece holds `sep`, and the pieces joined again with `sep` give back `s`.
pub proof fn lemma_pieces_rejoin(s: Seq<char>, sep: char)
    ensures
        pieces_of(s, sep).len() >= 1,
        forall|i: int| 0 <= i < pieces_of(s, sep).len() ==> !(#[trigger] pieces_of(s, sep)[i]).contains(sep),
        joined(pieces_of(s, sep), sep) == s,
    decreases s.len(),
{
    let ps = pieces_of(s, sep);
    if s.len() == 0 {
        assert(ps[0] =~= Seq::<char>::empty());
    } else {
        let s1 = s.drop_last();
        let c = s.last();
        lemma_pieces_rejoin(s1, sep);
        let prev = pieces_of(s1, sep);
        assert(s =~= s1.push(c));
        if c == sep {
            assert(ps.drop_last() =~= prev);
            assert(ps.last() =~= Seq::<char>::empty());
            assert(joined(prev, sep).push(sep) + Seq::<char>::empty() =~= s);
            assert forall|i: int| 0 <= i < ps.len() implies !(#[trigger] ps[i]).contains(sep) by {
                if i < prev.len() {
                    assert(ps[i] == prev[i]);
                }
            }
        } else {
            lemma_joined_extend_last(prev, sep, c);
            assert forall|i: int| 0 <= i < ps.len() implies !(#[trigger] ps[i]).contains(sep) by {
                if i < prev.len() - 1 {
                    assert(ps[i] == prev[i]);
                } else {
                    assert(ps[i] == prev.last().push(c));
                    assert(!prev[prev.len() - 1].contains(sep));
                    if ps[i].contains(sep) {
                        let t = choose|t: int| 0 <= t < ps[i].len() && ps[i][t] == sep;
                        if t < prev.last().len() {
                            assert(prev.last()[t] == sep);
                        }
                    }
                }
            }
        }
    }
}

/// `s` without leading and trailing white space.
pub fn trim_chars(s: &Vec<char>) -> (t: Vec<char>)
    ensures
        t@ == trim_of(s@),
{
    let n = s.len();
    let mut a: usize = 0;
    while a < n && white_space(s[a])
        invariant
            a <= n,
            n == s@.len(),
            forall|k: int| 0 <= k < a ==> is_white_space(#[trigger] s@[k]),
        decreases n - a,
    {
        a = a + 1;
    }
    let mut b: usize = n;
    while b > a && white_space(s[b - 1])
        invariant
            a <= b <= n,
            n == s@.len(),
            forall|k: int| b <= k < n ==> is_white_space(#[trigger] s@[k]),
        decreases b - a,
    {
        b = b - 1;
    }
    let mut t: Vec<char> = Vec::new();
    let mut k: usize = a;
    while k < b
        invariant
            a <= k <= b,
            b <= n,
            n == s@.len(),
            t@ == s@.subrange(a as int, k as int),
        decreases b - k,
    {
        t.push(s[k]);
        k = k + 1;
        proof {
            assert(t@ =~= s@.subrange(a as int, k as int));
        }
    }
    proof {
        lemma_trim_start_skip(s@, a as int);
        let rest = s@.skip(a as int);
        if a < n {
            assert(!is_white_space(rest[0]));
        }
        assert(trim_start_of(rest) == rest);
        assert forall|k2: int| b - a <= k2 < rest.len() implies is_white_space(#[trigger] rest[k2]) by {
            assert(rest[k2] == s@[k2 + a]);
        }
        lemma_trim_end_take(rest, b - a);
        assert(rest.take(b - a) =~= s@.subrange(a as int, b as int));
        if b > a {
            assert(s@.subrange(a as int, b as int).last() == s@[b - 1]);
        }
    }
    t
}

/// The records of `text`: for every non-blank line after the header, its
/// trimmed comma-separated fields.
pub fn parse_records(text: &Vec<char>) -> (records: Vec<Vec<Vec<char>>>)
    ensures
        records_view(records@) == records_of(text@),
        records@.len() == nonblank_lines_after_header(text@).len(),
        forall|i: int|
            0 <= i < records@.len() ==> #[trigger] records_view(records@)[i] == fields_of(
                trim_of(nonblank_lines_after_header(text@)[i]),
            ),
{
    proof {
        lemma_records_follow_nonblank_lines(text@);
    }
    let mut lines = split_pieces(text, '\n');
    let nl = lines.len();
    if lines[nl - 1].len() == 0 {
        let _ = lines.pop();
        proof {
            assert(texts_view(lines@) =~= pieces_of(text@, '\n').drop_last());
        }
    }
    let ghost ls = lines_of(text@);
    let ghost body = if ls.len() == 0 { ls } else { ls.drop_first() };
    let ghost trimmed = body.map_values(|l: Seq<char>| trim_of(l));
    proof {
        assert(texts_view(lines@) == ls);
    }
    let mut records: Vec<Vec<Vec<char>>> = Vec::new();
    let mut k: usize = 1;
    proof {
        if ls.len() > 0 {
            assert(body.take(0) =~= Seq::<Seq<char>>::empty());
        }
        assert(trimmed.take(0).filter(|l: Seq<char>| l.len() > 0) =~= Seq::<Seq<char>>::empty()) by {
            reveal(Seq::filter);
        }
    }
    while k < lines.len()
        invariant
            1 <= k,
            k <= lines@.len() || lines@.len() == 0,
            texts_view(lines@) == ls,
            ls.len() > 0 ==> body == ls.drop_first(),
            ls.len() == 0 ==> body == ls,
            trimmed == body.map_values(|l: Seq<char>| trim_of(l)),
            ls.len() > 0 ==> records_view(records@) == trimmed.take(k - 1).filter(|l: Seq<char>| l.len() > 0).map_values(|l: Seq<char>| fields_of(l)),
            ls.len() == 0 ==> records@.len() == 0,
        decreases lines@.len() - k,
    {
        let line = trim_chars(&lines[k]);
        let ghost prev = trimmed.take(k - 1);
        proof {
            assert(line@ == trimmed[k - 1]);
            assert(trimmed.take(k as int) =~= prev.push(line@));
            prev.lemma_filter_push(line@, |l: Seq<char>| l.len() > 0);
        }
        if line.len() > 0 {
            let pieces = split_pieces(&line, ',');
            let mut fields: Vec<Vec<char>> = Vec::new();
            let mut j: usize = 0;
            while j < pieces.len()
                invariant
                    j <= pieces@.len(),
                    texts_view(pieces@) == pieces_of(line@, ','),
                    texts_view(fields@) == pieces_of(line@, ',').take(j as int).map_values(|f: Seq<char>| trim_of(f)),
                decreases pieces@.len() - j,
            {
                let f = trim_chars(&pieces[j]);
                let ghost prev_fields = fields@;
                proof {
                    assert(texts_view(pieces@)[j as int] == pieces@[j as int]@);
                    assert(pieces_of(line@, ',').take(j + 1) =~= pieces_of(line@, ',').take(j as int).push(pieces@[j as int]@));
                }
                fields.push(f);
                j = j + 1;
                proof {
                    assert(texts_view(fields@) =~= texts_view(prev_fields).push(f@));
                    assert(texts_view(fields@) =~= pieces_of(line@, ',').take(j as int).map_values(|f: Seq<char>| trim_of(f)));
                }
            }
            let ghost prev_records = records@;
            records.push(fields);
            proof {
                assert(pieces_of(line@, ',').take(pieces@.len() as int) =~= pieces_of(line@, ','));
                assert(texts_view(fields@) == fields_of(line@));
                assert(records_view(records@) =~= records_view(prev_records).push(fields_of(line@)));
                assert(records_view(records@) =~= trimmed.take(k as int).filter(|l: Seq<char>| l.len() > 0).map_values(|l: Seq<char>| fields_of(l)));
            }
        }
        k = k + 1;
    }
    proof {
        if ls.len() > 0 {
            assert(trimmed.take(ls.len() - 1) =~= trimmed);
        } else {
            assert(body_lines_of(text@) =~= Seq::<Seq<char>>::empty()) by {
                reveal(Seq::filter);
            }
            assert(records_view(records@) =~= records_of(text@));
        }
    }
    records
}

/// Every record has exactly `width` fields.
pub fn all_records_have_width(records: &Vec<Vec<Vec<char>>>, width: usize) -> (ok: bool)
    ensures
        ok == forall|r: int| 0 <= r < records@.len() ==> #[trigger] records@[r]@.len() == width,
{
    let mut r: usize = 0;
    while r < records.len()
        invariant
            r <= records@.len(),
            forall|q: int| 0 <= q < r ==> #[trigger] records@[q]@.len() == width,
        decreases records@.len() - r,
    {
        if records[r].len() != width {
            return false;
        }
        r = r + 1;
    }
    true
}

} // verus!
