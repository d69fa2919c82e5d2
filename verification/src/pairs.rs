//! The index pairs behind the pairwise estimators: the Walsh pairs `i ≤ j`
//! of Hodges–Lehmann and the slope pairs `i < j` of Theil–Sen, in the order
//! `(0, ·), (1, ·), …` with the second index ascending.

use vstd::prelude::*;

verus! {

/// The pairs `(i, j)` with `first ≤ i`, `i + gap ≤ j < n`, ordered by `i`
/// and then by `j`.
pub open spec fn pairs_from(n: nat, first: nat, gap: nat) -> Seq<(usize, usize)>
    decreases n - first,
{
    if first >= n {
        Seq::empty()
    } else {
        let start = first + gap;
        let row = if start >= n {
            Seq::<(usize, usize)>::empty()
        } else {
            Seq::new((n - start) as nat, |k: int| (first as usize, (start + k) as usize))
        };
        row + pairs_from(n, first + 1, gap)
    }
}

/// All Walsh pairs `i ≤ j < n`.
pub open spec fn walsh_pairs_of(n: nat) -> Seq<(usize, usize)> {
    pairs_from(n, 0, 0)
}

/// All slope pairs `i < j < n`.
pub open spec fn slope_pairs_of(n: nat) -> Seq<(usize, usize)> {
    pairs_from(n, 0, 1)
}

/// `1 + 2 + … + m`.
pub open spec fn triangle(m: nat) -> nat
    decreases m,
{
    if m == 0 {
        0
    } else {
        m + triangle((m - 1) as nat)
    }
}

proof fn lemma_triangle_closed_form(m: nat)
    ensures
        2 * triangle(m) == m * (m + 1),
    decreases m,
{
    if m > 0 {
        let k = (m - 1) as nat;
        lemma_triangle_closed_form(k);
        assert(triangle(m) == m + triangle(k));
        assert(m * (m + 1) == k * (k + 1) + 2 * m) by (nonlinear_arith)
            requires
                k + 1 == m,
        ;
        assert(2 * triangle(k) == k * (k + 1));
        assert(2 * triangle(m) == 2 * m + 2 * triangle(k));
        assert(2 * triangle(m) == m * (m + 1));
    } else {
        assert(triangle(0) == 0);
        assert(m * (m + 1) == 0) by (nonlinear_arith)
            requires
                m == 0,
        ;
    }
}

proof fn lemma_pairs_from_len(n: nat, first: nat, gap: nat)
    requires
        gap <= 1,
    ensures
        pairs_from(n, first, gap).len() == if first + gap >= n { 0 } else { triangle((n - first - gap) as nat) },
    decreases n - first,
{
    if first < n {
        lemma_pairs_from_len(n, first + 1, gap);
        if first + gap < n {
            let m = (n - first - gap) as nat;
            assert(triangle(m) == m + triangle((m - 1) as nat));
        }
    }
}

/// Counting law: there are `n(n + 1)/2` Walsh pairs and `n(n − 1)/2` slope
/// pairs among `n` observations.
pub proof fn lemma_pair_counts(n: nat)
    ensures
        2 * walsh_pairs_of(n).len() == n * (n + 1),
        2 * slope_pairs_of(n).len() == n * (n - 1) || n == 0 && slope_pairs_of(n).len() == 0,
{
    lemma_pairs_from_len(n, 0, 0);
    lemma_pairs_from_len(n, 0, 1);
    lemma_triangle_closed_form(n);
    if n >= 1 {
        lemma_triangle_closed_form((n - 1) as nat);
        assert((n - 1) * n == n * (n - 1)) by (nonlinear_arith);
    }
}

proof fn lemma_pairs_from_members(n: nat, first: nat, gap: nat, i: usize, j: usize)
    requires
        n <= usize::MAX + 1,
    ensures
        pairs_from(n, first, gap).contains((i, j)) <==> (first <= i && i + gap <= j && j < n),
    decreases n - first,
{
    let s = pairs_from(n, first, gap);
    if first < n {
        lemma_pairs_from_members(n, first + 1, gap, i, j);
        let start = first + gap;
        let row = if start >= n {
            Seq::<(usize, usize)>::empty()
        } else {
            Seq::new((n - start) as nat, |k: int| (first as usize, (start + k) as usize))
        };
        let rest = pairs_from(n, first + 1, gap);
        assert(s == row + rest);
        if first <= i && i + gap <= j && j < n {
            if i == first {
                let k = j - start;
                assert(row[k] == (i, j));
                assert(s[k] == (i, j));
            } else {
                let t = choose|t: int| #![trigger rest[t]] 0 <= t < rest.len() && rest[t] == (i, j);
                assert(s[row.len() + t] == (i, j));
            }
        }
        if s.contains((i, j)) {
            let t = choose|t: int| #![trigger s[t]] 0 <= t < s.len() && s[t] == (i, j);
            if t >= row.len() {
                assert(rest[t - row.len()] == (i, j));
            } else {
                assert(row[t] == (i, j));
            }
        }
    }
}

/// Membership law: the Walsh pairs are exactly the `(i, j)` with
/// `i ≤ j < n`, the slope pairs exactly those with `i < j < n`.
pub proof fn lemma_pair_members(n: nat, i: usize, j: usize)
    requires
        n <= usize::MAX + 1,
    ensures
        walsh_pairs_of(n).contains((i, j)) <==> i <= j < n,
        slope_pairs_of(n).contains((i, j)) <==> i < j < n,
{
    lemma_pairs_from_members(n, 0, 0, i, j);
    lemma_pairs_from_members(n, 0, 1, i, j);
}

/// The pairs `(i, j)`, `i + gap ≤ j < n`, in order.
fn pairs_with_gap(n: usize, gap: usize) -> (pairs: Vec<(usize, usize)>)
    requires
        gap <= 1,
    ensures
        pairs@ == pairs_from(n as nat, 0, gap as nat),
{
    let mut pairs: Vec<(usize, usize)> = Vec::new();
    let mut i: usize = n;
    // built back to front: pairs == pairs_from(n, i, gap)
    proof {
        assert(pairs@ =~= pairs_from(n as nat, n as nat, gap as nat));
    }
    while i > 0
        invariant
            i <= n,
            gap <= 1,
            pairs@ == pairs_from(n as nat, i as nat, gap as nat),
        decreases i,
    {
        i = i - 1;
        let mut row: Vec<(usize, usize)> = Vec::new();
        let mut j: usize = if i + gap <= n { i + gap } else { n };
        let ghost start = j;
        while j < n
            invariant
                start <= j <= n,
                start == if i + gap <= n { i + gap } else { n as int },
                row@ == Seq::new((j - start) as nat, |k: int| (i, (start + k) as usize)),
            decreases n - j,
        {
            row.push((i, j));
            j = j + 1;
            proof {
                assert(row@ =~= Seq::new((j - start) as nat, |k: int| (i, (start + k) as usize)));
            }
        }
        row.append(&mut pairs);
        pairs = row;
        proof {
            assert(pairs@ =~= pairs_from(n as nat, i as nat, gap as nat));
        }
    }
    pairs
}

/// All Walsh pairs `i ≤ j < n`, in order.
pub fn walsh_pairs(n: usize) -> (pairs: Vec<(usize, usize)>)
    ensures
        pairs@ == walsh_pairs_of(n as nat),
{
    pairs_with_gap(n, 0)
}

/// All slope pairs `i < j < n`, in order.
pub fn slope_pairs(n: usize) -> (pairs: Vec<(usize, usize)>)
    ensures
        pairs@ == slope_pairs_of(n as nat),
{
    pairs_with_gap(n, 1)
}

} // verus!
