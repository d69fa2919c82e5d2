//! Rank order and selection over total-order keys.
//!
//! Every value that the estimators rank (a residual, a squared Mahalanobis
//! distance, a search score) is handed to this module as an `i64` key whose
//! integer order is the value's total order. Observations are ranked by key,
//! ties broken by index, which is exactly the order a stable sort produces.

use vstd::prelude::*;
use vstd::relations::{sorted_by, total_ordering};

verus! {

/// Observation `a` ranks no later than observation `b`: its key is smaller, or
/// the keys tie and `a` does not come after `b`.
pub open spec fn rank_before(keys: Seq<i64>, a: usize, b: usize) -> bool {
    keys[a as int] < keys[b as int] || (keys[a as int] == keys[b as int] && a <= b)
}

/// The rank order of `keys` as a relation on indices.
pub open spec fn rank_le(keys: Seq<i64>) -> spec_fn(usize, usize) -> bool {
    |a: usize, b: usize| rank_before(keys, a, b)
}

/// `s` lists indices in rank order.
pub open spec fn ranked(keys: Seq<i64>, s: Seq<usize>) -> bool {
    forall|i: int, j: int| 0 <= i < j < s.len() ==> #[trigger] rank_before(keys, s[i], s[j])
}

/// Every entry of `s` indexes into `keys`.
pub open spec fn indexes_into(s: Seq<usize>, n: nat) -> bool {
    forall|k: int| 0 <= k < s.len() ==> #[trigger] s[k] < n
}

proof fn lemma_rank_le_total(keys: Seq<i64>)
    ensures
        total_ordering(rank_le(keys)),
{
}

proof fn lemma_ranked_is_sorted_by(keys: Seq<i64>, s: Seq<usize>)
    ensures
        ranked(keys, s) <==> sorted_by(s, rank_le(keys)),
{
    if ranked(keys, s) {
        assert forall|i: int, j: int| 0 <= i < j < s.len() implies #[trigger] rank_le(keys)(
            s[i],
            s[j],
        ) by {
            assert(rank_before(keys, s[i], s[j]));
        }
    }
    if sorted_by(s, rank_le(keys)) {
        assert forall|i: int, j: int| 0 <= i < j < s.len() implies #[trigger] rank_before(
            keys,
            s[i],
            s[j],
        ) by {
            assert(rank_le(keys)(s[i], s[j]));
        }
    }
}

/// Merge two rank-ordered index lists into one.
fn merge_ranked(keys: &Vec<i64>, left: Vec<usize>, right: Vec<usize>) -> (out: Vec<usize>)
    requires
        indexes_into(left@, keys@.len()),
        indexes_into(right@, keys@.len()),
        ranked(keys@, left@),
        ranked(keys@, right@),
    ensures
        indexes_into(out@, keys@.len()),
        ranked(keys@, out@),
        out@.to_multiset() == left@.to_multiset().add(right@.to_multiset()),
{
    broadcast use vstd::seq_lib::group_to_multiset_ensures;
    broadcast use vstd::multiset::group_multiset_axioms;

    let ghost ks = keys@;
    let mut out: Vec<usize> = Vec::new();
    let mut i: usize = 0;
    let mut j: usize = 0;
    while i < left.len() || j < right.len()
        invariant
            i <= left.len(),
            j <= right.len(),
            out@.len() == i + j,
            ks == keys@,
            indexes_into(left@, ks.len()),
            indexes_into(right@, ks.len()),
            ranked(ks, left@),
            ranked(ks, right@),
            indexes_into(out@, ks.len()),
            ranked(ks, out@),
            out@.to_multiset() == left@.take(i as int).to_multiset().add(
                right@.take(j as int).to_multiset(),
            ),
            out@.len() > 0 && i < left.len() ==> rank_before(ks, out@.last(), left@[i as int]),
            out@.len() > 0 && j < right.len() ==> rank_before(ks, out@.last(), right@[j as int]),
        decreases left.len() + right.len() - i - j,
    {
        let take_left = if j >= right.len() {
            true
        } else if i >= left.len() {
            false
        } else {
            let a = left[i];
            let b = right[j];
            keys[a] < keys[b] || (keys[a] == keys[b] && a <= b)
        };
        let ghost prev = out@;
        if take_left {
            let x = left[i];
            proof {
                assert(left@.take(i + 1) =~= left@.take(i as int).push(x));
                assert forall|k: int| 0 <= k < prev.len() implies #[trigger] rank_before(
                    ks,
                    prev[k],
                    x,
                ) by {
                    if k < prev.len() - 1 {
                        assert(rank_before(ks, prev[k], prev.last()));
                    }
                }
                if j < right.len() {
                    assert(rank_before(ks, x, right@[j as int]));
                }
                if i + 1 < left.len() {
                    assert(rank_before(ks, left@[i as int], left@[i + 1]));
                }
            }
            out.push(x);
            i = i + 1;
            proof {
                assert(out@ =~= prev.push(x));
                vstd::seq_lib::to_multiset_build(prev, x);
                vstd::seq_lib::to_multiset_build(left@.take(i - 1), x);
                assert(left@.take(i as int) =~= left@.take(i - 1).push(x));
                assert(out@.to_multiset() =~= left@.take(i as int).to_multiset().add(
                    right@.take(j as int).to_multiset(),
                ));
                assert forall|a: int, b: int| 0 <= a < b < out@.len() implies #[trigger] rank_before(
                    ks,
                    out@[a],
                    out@[b],
                ) by {
                    if b < prev.len() {
                        assert(rank_before(ks, prev[a], prev[b]));
                    }
                }
            }
        } else {
            let x = right[j];
            proof {
                assert(right@.take(j + 1) =~= right@.take(j as int).push(x));
                assert forall|k: int| 0 <= k < prev.len() implies #[trigger] rank_before(
                    ks,
                    prev[k],
                    x,
                ) by {
                    if k < prev.len() - 1 {
                        assert(rank_before(ks, prev[k], prev.last()));
                    }
                }
                if i < left.len() {
                    assert(rank_before(ks, x, left@[i as int]));
                }
                if j + 1 < right.len() {
                    assert(rank_before(ks, right@[j as int], right@[j + 1]));
                }
            }
            out.push(x);
            j = j + 1;
            proof {
                assert(out@ =~= prev.push(x));
                vstd::seq_lib::to_multiset_build(prev, x);
                vstd::seq_lib::to_multiset_build(right@.take(j - 1), x);
                assert(right@.take(j as int) =~= right@.take(j - 1).push(x));
                assert(out@.to_multiset() =~= left@.take(i as int).to_multiset().add(
                    right@.take(j as int).to_multiset(),
                ));
                assert forall|a: int, b: int| 0 <= a < b < out@.len() implies #[trigger] rank_before(
                    ks,
                    out@[a],
                    out@[b],
                ) by {
                    if b < prev.len() {
                        assert(rank_before(ks, prev[a], prev[b]));
                    }
                }
            }
        }
    }
    proof {
        assert(left@.take(left@.len() as int) =~= left@);
        assert(right@.take(right@.len() as int) =~= right@);
    }
    out
}


/// The indices `0, 1, ..., n - 1` in ascending order.
pub open spec fn index_seq(n: nat) -> Seq<usize> {
    Seq::new(n, |i: int| i as usize)
}

/// All indices of `keys`, listed in rank order: by key, ties by index.
pub open spec fn rank_order_of(keys: Seq<i64>) -> Seq<usize> {
    index_seq(keys.len()).sort_by(rank_le(keys))
}

/// Merge sort of an index list into rank order.
fn sort_ranked(keys: &Vec<i64>, v: Vec<usize>) -> (out: Vec<usize>)
    requires
        indexes_into(v@, keys@.len()),
    ensures
        indexes_into(out@, keys@.len()),
        ranked(keys@, out@),
        out@.to_multiset() == v@.to_multiset(),
    decreases v@.len(),
{
    if v.len() <= 1 {
        return v;
    }
    let mut left = v;
    let mid = left.len() / 2;
    let right = left.split_off(mid);
    proof {
        assert(v@ =~= left@ + right@);
        vstd::seq_lib::lemma_multiset_commutative(left@, right@);
    }
    let sorted_left = sort_ranked(keys, left);
    let sorted_right = sort_ranked(keys, right);
    merge_ranked(keys, sorted_left, sorted_right)
}

/// The rank order of `keys`: every index `0..keys.len()` exactly once, by
/// ascending key, equal keys by ascending index (what a stable sort of the
/// indices by key yields).
pub fn rank_order(keys: &Vec<i64>) -> (order: Vec<usize>)
    ensures
        order@ == rank_order_of(keys@),
{
    let n = keys.len();
    let mut idx: Vec<usize> = Vec::new();
    let mut i: usize = 0;
    while i < n
        invariant
            i <= n,
            n == keys@.len(),
            idx@ == index_seq(i as nat),
        decreases n - i,
    {
        idx.push(i);
        i = i + 1;
        proof {
            assert(idx@ =~= index_seq(i as nat));
        }
    }
    let out = sort_ranked(keys, idx);
    proof {
        lemma_rank_le_total(keys@);
        lemma_ranked_is_sorted_by(keys@, out@);
        index_seq(n as nat).lemma_sort_by_ensures(rank_le(keys@));
        vstd::seq_lib::lemma_sorted_unique(out@, rank_order_of(keys@), rank_le(keys@));
    }
    out
}


/// Permutation law: any rearrangement of the indices `0..n` (same elements,
/// same counts) lists every index below `n` exactly once.
pub proof fn lemma_rearranged_indices_are_permutation(n: nat, s: Seq<usize>)
    requires
        n <= usize::MAX,
        s.to_multiset() == index_seq(n).to_multiset(),
    ensures
        s.len() == n,
        indexes_into(s, n),
        s.no_duplicates(),
        forall|j: usize| j < n ==> #[trigger] s.contains(j),
{
    broadcast use vstd::seq_lib::group_to_multiset_ensures;
    broadcast use vstd::multiset::group_multiset_axioms;

    let ids = index_seq(n);
    vstd::seq_lib::to_multiset_len(ids);
    vstd::seq_lib::to_multiset_len(s);
    assert forall|k: int| 0 <= k < s.len() implies #[trigger] s[k] < n by {
        assert(s.contains(s[k]));
        vstd::seq_lib::to_multiset_contains(s, s[k]);
        vstd::seq_lib::to_multiset_contains(ids, s[k]);
    }
    assert forall|j: usize| j < n implies #[trigger] s.contains(j) by {
        assert(ids[j as int] == j);
        assert(ids.contains(j));
        vstd::seq_lib::to_multiset_contains(ids, j);
        vstd::seq_lib::to_multiset_contains(s, j);
    }
    assert forall|a: int, b: int| 0 <= a < ids.len() && 0 <= b < ids.len() && a != b implies ids[a] != ids[b] by {
        assert(ids[a] == a as usize);
        assert(ids[b] == b as usize);
    }
    assert(ids.no_duplicates());
    ids.lemma_multiset_has_no_duplicates();
    s.lemma_multiset_has_no_duplicates_conv();
}

/// Rank-order law: the rank order lists every observation exactly once, and
/// ranks any observation listed earlier no later than one listed after it.
pub proof fn lemma_rank_order_is_ranked_permutation(keys: Seq<i64>)
    requires
        keys.len() <= usize::MAX,
    ensures
        rank_order_of(keys).len() == keys.len(),
        indexes_into(rank_order_of(keys), keys.len()),
        rank_order_of(keys).no_duplicates(),
        forall|j: usize| j < keys.len() ==> #[trigger] rank_order_of(keys).contains(j),
        ranked(keys, rank_order_of(keys)),
{
    let ids = index_seq(keys.len());
    let ord = rank_order_of(keys);
    lemma_rank_le_total(keys);
    ids.lemma_sort_by_ensures(rank_le(keys));
    lemma_ranked_is_sorted_by(keys, ord);
    lemma_rearranged_indices_are_permutation(keys.len(), ord);
}

/// The `h` lowest-ranked observations, in rank order (all of them when
/// `h` exceeds their number).
pub fn lowest_ranked(keys: &Vec<i64>, h: usize) -> (picked: Vec<usize>)
    ensures
        picked@ == rank_order_of(keys@).take(if h <= keys@.len() { h as int } else { keys@.len() as int }),
{
    let n = keys.len();
    let mut order = rank_order(keys);
    proof {
        lemma_rank_order_is_ranked_permutation(keys@);
    }
    let ghost full = order@;
    order.truncate(h);
    proof {
        if h > keys@.len() {
            assert(full.take(keys@.len() as int) =~= full);
        }
    }
    order
}

/// `s` is strictly increasing.
pub open spec fn ascending(s: Seq<usize>) -> bool {
    forall|i: int, j: int| 0 <= i < j < s.len() ==> #[trigger] s[i] < #[trigger] s[j]
}

/// The set of the `h` lowest-ranked observations, listed by ascending index:
/// the observations a trimming estimator retains.
pub fn retained_subset(keys: &Vec<i64>, h: usize) -> (subset: Vec<usize>)
    requires
        h <= keys@.len(),
    ensures
        subset@.len() == h,
        ascending(subset@),
        indexes_into(subset@, keys@.len()),
        forall|j: usize| #[trigger] subset@.contains(j) <==> rank_order_of(keys@).take(h as int).contains(j),
{
    let n = keys.len();
    let order = rank_order(keys);
    let ghost kept = order@.take(h as int);
    proof {
        lemma_rank_order_is_ranked_permutation(keys@);
    }
    let mut marked: Vec<bool> = Vec::new();
    let mut i: usize = 0;
    while i < n
        invariant
            i <= n,
            marked@.len() == i,
            forall|j: int| 0 <= j < i ==> !#[trigger] marked@[j],
        decreases n - i,
    {
        marked.push(false);
        i = i + 1;
    }
    let mut k: usize = 0;
    while k < h
        invariant
            k <= h,
            h <= n,
            n == keys@.len(),
            order@ == rank_order_of(keys@),
            kept == order@.take(h as int),
            order@.len() == n,
            indexes_into(order@, n as nat),
            marked@.len() == n,
            forall|j: int| 0 <= j < n ==> (#[trigger] marked@[j] <==> order@.take(k as int).contains(j as usize)),
        decreases h - k,
    {
        let m = order[k];
        let ghost before = marked@;
        let ghost taken = order@.take(k as int);
        marked.set(m, true);
        k = k + 1;
        proof {
            assert(order@.take(k as int) =~= taken.push(m));
            assert forall|j: int| 0 <= j < n implies (#[trigger] marked@[j] <==> order@.take(k as int).contains(j as usize)) by {
                if j == m as int {
                    assert(order@.take(k as int)[k - 1] == m);
                } else {
                    assert(marked@[j] == before[j]);
                    if taken.contains(j as usize) {
                        let t = choose|t: int| #![trigger taken[t]] 0 <= t < taken.len() && taken[t] == j as usize;
                        assert(order@.take(k as int)[t] == j as usize);
                    }
                    if order@.take(k as int).contains(j as usize) {
                        let t = choose|t: int| #![trigger order@.take(k as int)[t]] 0 <= t < k && order@.take(k as int)[t] == j as usize;
                        assert(t != k - 1);
                        assert(taken[t] == j as usize);
                    }
                }
            }
        }
    }
    let mut subset: Vec<usize> = Vec::new();
    let mut i: usize = 0;
    while i < n
        invariant
            i <= n,
            n == keys@.len(),
            marked@.len() == n,
            forall|j: int| 0 <= j < n ==> (#[trigger] marked@[j] <==> kept.contains(j as usize)),
            ascending(subset@),
            forall|t: int| 0 <= t < subset@.len() ==> #[trigger] subset@[t] < i,
            forall|j: usize| #[trigger] subset@.contains(j) <==> (j < i && kept.contains(j)),
        decreases n - i,
    {
        let ghost prev = subset@;
        let here = marked[i];
        proof {
            assert(here == marked@[i as int]);
        }
        if here {
            subset.push(i);
            proof {
                assert(subset@ =~= prev.push(i));
                assert forall|j: usize| #[trigger] subset@.contains(j) <==> (j < i + 1 && kept.contains(j)) by {
                    if j == i {
                        assert(subset@[prev.len() as int] == j);
                    } else if subset@.contains(j) {
                        let t = choose|t: int| #![trigger subset@[t]] 0 <= t < subset@.len() && subset@[t] == j;
                        assert(prev[t] == j);
                        assert(prev.contains(j));
                    } else if j < i && kept.contains(j) {
                        assert(prev.contains(j));
                        let t = choose|t: int| #![trigger prev[t]] 0 <= t < prev.len() && prev[t] == j;
                        assert(subset@[t] == j);
                    }
                }
            }
        } else {
            proof {
                assert forall|j: usize| #[trigger] subset@.contains(j) <==> (j < i + 1 && kept.contains(j)) by {
                    if j == i {
                        assert(!kept.contains(j));
                        if subset@.contains(j) {
                            let t = choose|t: int| #![trigger subset@[t]] 0 <= t < subset@.len() && subset@[t] == j;
                        }
                    }
                }
            }
        }
        i = i + 1;
    }
    proof {
        assert(subset@.no_duplicates());
        assert(kept.no_duplicates()) by {
            assert forall|a: int, b: int| 0 <= a < kept.len() && 0 <= b < kept.len() && a != b implies kept[a] != kept[b] by {
                assert(kept[a] == order@[a]);
                assert(kept[b] == order@[b]);
            }
        }
        assert forall|j: usize| #[trigger] kept.contains(j) implies j < n by {
            let t = choose|t: int| #![trigger kept[t]] 0 <= t < kept.len() && kept[t] == j;
            assert(order@[t] == j);
        }
        assert(subset@.to_set() =~= kept.to_set());
        subset@.unique_seq_to_set();
        kept.unique_seq_to_set();
    }
    subset
}


/// Trimming law: every observation among the `h` lowest-ranked ranks before
/// every observation left out, so in particular its key is no larger.
pub proof fn lemma_retained_rank_before_dropped(keys: Seq<i64>, h: nat, kept: usize, dropped: usize)
    requires
        keys.len() <= usize::MAX,
        h <= keys.len(),
        rank_order_of(keys).take(h as int).contains(kept),
        dropped < keys.len(),
        !rank_order_of(keys).take(h as int).contains(dropped),
    ensures
        rank_before(keys, kept, dropped),
        keys[kept as int] <= keys[dropped as int],
{
    let ord = rank_order_of(keys);
    lemma_rank_order_is_ranked_permutation(keys);
    let a = choose|a: int| #![trigger ord.take(h as int)[a]] 0 <= a < h && ord.take(h as int)[a] == kept;
    assert(ord.contains(dropped));
    let b = choose|b: int| #![trigger ord[b]] 0 <= b < ord.len() && ord[b] == dropped;
    if b < h {
        assert(ord.take(h as int)[b] == dropped);
    }
    assert(ord[a] == kept);
    assert(rank_before(keys, ord[a], ord[b]));
}

/// A retained subset is fixed by the set it lists: two ascending index lists
/// with the same members are equal, so fits that retain the same
/// observations report identical subsets, whatever the keys' ties.
pub proof fn lemma_ascending_lists_with_same_members_are_equal(a: Seq<usize>, b: Seq<usize>)
    requires
        ascending(a),
        ascending(b),
        forall|j: usize| #![trigger a.contains(j)] #![trigger b.contains(j)] a.contains(j) <==> b.contains(j),
    ensures
        a == b,
    decreases a.len() + b.len(),
{
    if a.len() == 0 || b.len() == 0 {
        if a.len() > 0 {
            assert(a.contains(a[0]));
        }
        if b.len() > 0 {
            assert(b.contains(b[0]));
        }
        assert(a =~= b);
    } else {
        assert(a.contains(a[0]));
        assert(b.contains(b[0]));
        let i = choose|i: int| #![trigger b[i]] 0 <= i < b.len() && b[i] == a[0];
        let k = choose|k: int| #![trigger a[k]] 0 <= k < a.len() && a[k] == b[0];
        if i > 0 {
            assert(b[0] < b[i]);
            if k > 0 {
                assert(a[0] < a[k]);
            }
        }
        assert(a[0] == b[0]);
        let a1 = a.drop_first();
        let b1 = b.drop_first();
        assert forall|j: usize| #![trigger a1.contains(j)] #![trigger b1.contains(j)] a1.contains(j) <==> b1.contains(j) by {
            if a1.contains(j) {
                let t = choose|t: int| #![trigger a1[t]] 0 <= t < a1.len() && a1[t] == j;
                assert(a[t + 1] == j);
                assert(a.contains(j));
                let u = choose|u: int| #![trigger b[u]] 0 <= u < b.len() && b[u] == j;
                assert(a[0] < a[t + 1]);
                assert(u != 0);
                assert(b1[u - 1] == j);
            }
            if b1.contains(j) {
                let t = choose|t: int| #![trigger b1[t]] 0 <= t < b1.len() && b1[t] == j;
                assert(b[t + 1] == j);
                assert(b.contains(j));
                let u = choose|u: int| #![trigger a[u]] 0 <= u < a.len() && a[u] == j;
                assert(b[0] < b[t + 1]);
                assert(u != 0);
                assert(a1[u - 1] == j);
            }
        }
        assert(ascending(a1)) by {
            assert forall|x: int, y: int| 0 <= x < y < a1.len() implies #[trigger] a1[x] < #[trigger] a1[y] by {
                assert(a[x + 1] < a[y + 1]);
            }
        }
        assert(ascending(b1)) by {
            assert forall|x: int, y: int| 0 <= x < y < b1.len() implies #[trigger] b1[x] < #[trigger] b1[y] by {
                assert(b[x + 1] < b[y + 1]);
            }
        }
        lemma_ascending_lists_with_same_members_are_equal(a1, b1);
        assert(a =~= seq![a[0]] + a1);
        assert(b =~= seq![b[0]] + b1);
    }
}

/// The natural order on keys.
pub open spec fn key_le() -> spec_fn(i64, i64) -> bool {
    |a: i64, b: i64| a <= b
}

/// `keys` rearranged in ascending order.
pub open spec fn sorted_keys_of(keys: Seq<i64>) -> Seq<i64> {
    keys.sort_by(key_le())
}

proof fn lemma_map_preserves_multiset<A, B>(s: Seq<A>, t: Seq<A>, f: spec_fn(A) -> B)
    requires
        s.to_multiset() == t.to_multiset(),
    ensures
        s.map_values(f).to_multiset() == t.map_values(f).to_multiset(),
    decreases s.len(),
{
    broadcast use vstd::seq_lib::group_to_multiset_ensures;
    broadcast use vstd::multiset::group_multiset_axioms;

    if s.len() == 0 {
        vstd::seq_lib::to_multiset_len(t);
        assert(s.map_values(f) =~= t.map_values(f));
    } else {
        let x = s.last();
        let s1 = s.drop_last();
        assert(s =~= s1.push(x));
        vstd::seq_lib::to_multiset_build(s1, x);
        assert(s.contains(x)) by {
            assert(s[s.len() - 1] == x);
        }
        vstd::seq_lib::to_multiset_contains(s, x);
        vstd::seq_lib::to_multiset_contains(t, x);
        let i = choose|i: int| #![trigger t[i]] 0 <= i < t.len() && t[i] == x;
        let t1 = t.remove(i);
        vstd::seq_lib::to_multiset_remove(t, i);
        assert(s1.to_multiset() =~= t1.to_multiset());
        lemma_map_preserves_multiset(s1, t1, f);
        assert(s.map_values(f) =~= s1.map_values(f).push(f(x)));
        vstd::seq_lib::to_multiset_build(s1.map_values(f), f(x));
        assert(t1.map_values(f) =~= t.map_values(f).remove(i));
        vstd::seq_lib::to_multiset_remove(t.map_values(f), i);
        assert(t.map_values(f)[i] == f(x));
        assert(t.map_values(f).to_multiset().contains(f(x))) by {
            assert(t.map_values(f).contains(f(x)));
            vstd::seq_lib::to_multiset_contains(t.map_values(f), f(x));
        }
        assert(s.map_values(f).to_multiset() =~= t.map_values(f).to_multiset());
    }
}

/// Sorting law: the sorted keys are the keys rearranged, in non-decreasing order.
pub proof fn lemma_sorted_keys_is_sorted_rearrangement(keys: Seq<i64>)
    ensures
        sorted_keys_of(keys).to_multiset() == keys.to_multiset(),
        sorted_keys_of(keys).len() == keys.len(),
        forall|i: int, j: int| 0 <= i <= j < keys.len() ==> #[trigger] sorted_keys_of(keys)[i] <= #[trigger] sorted_keys_of(keys)[j],
{
    keys.lemma_sort_by_ensures(key_le());
    vstd::seq_lib::to_multiset_len(keys);
    vstd::seq_lib::to_multiset_len(sorted_keys_of(keys));
    let s = sorted_keys_of(keys);
    assert forall|i: int, j: int| 0 <= i <= j < keys.len() implies #[trigger] s[i] <= #[trigger] s[j] by {
        if i < j {
            assert(key_le()(s[i], s[j]));
        }
    }
}

/// The keys in ascending order.
pub fn sorted_keys(keys: &Vec<i64>) -> (sorted: Vec<i64>)
    ensures
        sorted@ == sorted_keys_of(keys@),
{
    let n = keys.len();
    let order = rank_order(keys);
    proof {
        lemma_rank_order_is_ranked_permutation(keys@);
    }
    let mut sorted: Vec<i64> = Vec::new();
    let mut k: usize = 0;
    while k < n
        invariant
            k <= n,
            n == keys@.len(),
            order@ == rank_order_of(keys@),
            order@.len() == n,
            indexes_into(order@, n as nat),
            sorted@ == order@.take(k as int).map_values(|i: usize| keys@[i as int]),
        decreases n - k,
    {
        let v = keys[order[k]];
        sorted.push(v);
        k = k + 1;
        proof {
            assert(sorted@ =~= order@.take(k as int).map_values(|i: usize| keys@[i as int]));
        }
    }
    proof {
        let f = |i: usize| keys@[i as int];
        let ids = index_seq(n as nat);
        assert(order@.take(n as int) =~= order@);
        lemma_rank_le_total(keys@);
        ids.lemma_sort_by_ensures(rank_le(keys@));
        lemma_map_preserves_multiset(order@, ids, f);
        assert(ids.map_values(f) =~= keys@);
        assert(vstd::relations::sorted_by(sorted@, key_le())) by {
            assert forall|a: int, b: int| 0 <= a < b < sorted@.len() implies #[trigger] key_le()(sorted@[a], sorted@[b]) by {
                assert(rank_before(keys@, order@[a], order@[b]));
            }
        }
        keys@.lemma_sort_by_ensures(key_le());
        vstd::seq_lib::lemma_sorted_unique(sorted@, sorted_keys_of(keys@), key_le());
    }
    sorted
}

/// The middle of a sample: its middle key when the sample size is odd, its
/// two middle keys (lower, upper) when it is even.
#[derive(Debug, Clone, Copy, PartialEq, Eq)]
pub enum MiddleKeys {
    Single(i64),
    Pair(i64, i64),
}

/// The middle order statistics of a non-empty sample.
pub open spec fn middle_of(keys: Seq<i64>) -> MiddleKeys {
    let s = sorted_keys_of(keys);
    let n = keys.len();
    if n % 2 == 1 {
        MiddleKeys::Single(s[(n / 2) as int])
    } else {
        MiddleKeys::Pair(s[(n / 2 - 1) as int], s[(n / 2) as int])
    }
}

/// The number of keys strictly below `v`.
pub open spec fn count_below(keys: Seq<i64>, v: i64) -> nat {
    keys.filter(|x: i64| x < v).len()
}

/// The number of keys at most `v`.
pub open spec fn count_at_most(keys: Seq<i64>, v: i64) -> nat {
    keys.filter(|x: i64| x <= v).len()
}

/// `v` is the order statistic of rank `k` (counting from 0) of `keys`: at
/// most `k` keys lie strictly below it, and more than `k` lie at or below it.
pub open spec fn is_order_statistic(keys: Seq<i64>, k: int, v: i64) -> bool {
    count_below(keys, v) <= k < count_at_most(keys, v)
}

/// The middle order statistics from which a median is formed.
pub fn middle_keys(keys: &Vec<i64>) -> (middle: MiddleKeys)
    requires
        keys@.len() > 0,
    ensures
        middle == middle_of(keys@),
        keys@.len() % 2 == 1 ==> (middle matches MiddleKeys::Single(m) && is_order_statistic(
            keys@,
            (keys@.len() / 2) as int,
            m,
        )),
        keys@.len() % 2 == 0 ==> (middle matches MiddleKeys::Pair(lo, hi) && is_order_statistic(
            keys@,
            keys@.len() / 2 - 1,
            lo,
        ) && is_order_statistic(keys@, (keys@.len() / 2) as int, hi)),
{
    let sorted = sorted_keys(keys);
    proof {
        lemma_sorted_keys_is_sorted_rearrangement(keys@);
        lemma_middle_keys_are_order_statistics(keys@);
    }
    let n = sorted.len();
    let mid = n / 2;
    if n % 2 == 1 {
        MiddleKeys::Single(sorted[mid])
    } else {
        MiddleKeys::Pair(sorted[mid - 1], sorted[mid])
    }
}

proof fn lemma_filter_len_push_one<A>(s: Seq<A>, x: A, p: spec_fn(A) -> bool)
    ensures
        s.push(x).filter(p).len() == s.filter(p).len() + if p(x) { 1int } else { 0int },
{
    s.lemma_filter_push(x, p);
}

proof fn lemma_filter_len_remove<A>(t: Seq<A>, i: int, p: spec_fn(A) -> bool)
    requires
        0 <= i < t.len(),
    ensures
        t.filter(p).len() == t.remove(i).filter(p).len() + if p(t[i]) { 1int } else { 0int },
{
    let front = t.take(i);
    let back = t.skip(i + 1);
    assert(t =~= front + (seq![t[i]] + back));
    assert(t.remove(i) =~= front + back);
    Seq::filter_distributes_over_add(front, seq![t[i]] + back, p);
    Seq::filter_distributes_over_add(front, back, p);
    back.lemma_filter_prepend(t[i], p);
}

proof fn lemma_filter_len_same_multiset<A>(s: Seq<A>, t: Seq<A>, p: spec_fn(A) -> bool)
    requires
        s.to_multiset() == t.to_multiset(),
    ensures
        s.filter(p).len() == t.filter(p).len(),
    decreases s.len(),
{
    broadcast use vstd::seq_lib::group_to_multiset_ensures;
    broadcast use vstd::multiset::group_multiset_axioms;

    if s.len() == 0 {
        vstd::seq_lib::to_multiset_len(s);
        vstd::seq_lib::to_multiset_len(t);
        s.lemma_filter_len(p);
        t.lemma_filter_len(p);
    } else {
        let x = s.last();
        let s1 = s.drop_last();
        assert(s =~= s1.push(x));
        vstd::seq_lib::to_multiset_build(s1, x);
        assert(s.contains(x)) by {
            assert(s[s.len() - 1] == x);
        }
        vstd::seq_lib::to_multiset_contains(s, x);
        vstd::seq_lib::to_multiset_contains(t, x);
        let i = choose|i: int| #![trigger t[i]] 0 <= i < t.len() && t[i] == x;
        let t1 = t.remove(i);
        vstd::seq_lib::to_multiset_remove(t, i);
        assert(s1.to_multiset() =~= t1.to_multiset());
        lemma_filter_len_same_multiset(s1, t1, p);
        lemma_filter_len_push_one(s1, x, p);
        lemma_filter_len_remove(t, i, p);
    }
}

proof fn lemma_filter_len_weaker_pred<A>(s: Seq<A>, p: spec_fn(A) -> bool, q: spec_fn(A) -> bool)
    requires
        forall|x: A| #[trigger] p(x) ==> q(x),
    ensures
        s.filter(p).len() <= s.filter(q).len(),
    decreases s.len(),
{
    if s.len() == 0 {
        s.lemma_filter_len(q);
        assert(s.filter(p).len() == 0) by {
            reveal(Seq::filter);
        }
    } else {
        let s1 = s.drop_last();
        assert(s =~= s1.push(s.last()));
        lemma_filter_len_weaker_pred(s1, p, q);
        lemma_filter_len_push_one(s1, s.last(), p);
        lemma_filter_len_push_one(s1, s.last(), q);
    }
}

proof fn lemma_filter_len_all<A>(s: Seq<A>, p: spec_fn(A) -> bool, keep: bool)
    requires
        forall|i: int| 0 <= i < s.len() ==> #[trigger] p(s[i]) == keep,
    ensures
        s.filter(p).len() == if keep { s.len() } else { 0 },
    decreases s.len(),
{
    if s.len() == 0 {
        assert(s.filter(p).len() == 0) by {
            reveal(Seq::filter);
        }
    } else {
        let s1 = s.drop_last();
        assert(s =~= s1.push(s.last()));
        assert forall|i: int| 0 <= i < s1.len() implies #[trigger] p(s1[i]) == keep by {
            assert(s1[i] == s[i]);
        }
        lemma_filter_len_all(s1, p, keep);
        assert(p(s[s.len() - 1]) == keep);
        lemma_filter_len_push_one(s1, s.last(), p);
    }
}

/// Entry `k` of the sorted keys is the order statistic of rank `k`.
pub proof fn lemma_sorted_entry_is_order_statistic(keys: Seq<i64>, k: int)
    requires
        0 <= k < keys.len(),
    ensures
        is_order_statistic(keys, k, sorted_keys_of(keys)[k]),
{
    lemma_sorted_keys_is_sorted_rearrangement(keys);
    let s = sorted_keys_of(keys);
    let v = s[k];
    let below = |x: i64| x < v;
    let at_most = |x: i64| x <= v;
    lemma_filter_len_same_multiset(keys, s, below);
    lemma_filter_len_same_multiset(keys, s, at_most);

    let lower = s.take(k);
    let upper = s.skip(k);
    assert(s =~= lower + upper);
    Seq::filter_distributes_over_add(lower, upper, below);
    lower.lemma_filter_len(below);
    assert forall|i: int| 0 <= i < upper.len() implies #[trigger] below(upper[i]) == false by {
        assert(upper[i] == s[k + i]);
        assert(s[k] <= s[k + i]);
    }
    lemma_filter_len_all(upper, below, false);

    let lower1 = s.take(k + 1);
    let upper1 = s.skip(k + 1);
    assert(s =~= lower1 + upper1);
    Seq::filter_distributes_over_add(lower1, upper1, at_most);
    assert forall|i: int| 0 <= i < lower1.len() implies #[trigger] at_most(lower1[i]) == true by {
        assert(lower1[i] == s[i]);
        assert(s[i] <= s[k]);
    }
    lemma_filter_len_all(lower1, at_most, true);
}

/// An order statistic is unique: two values of the same rank are equal.
pub proof fn lemma_order_statistic_unique(keys: Seq<i64>, k: int, v: i64, w: i64)
    requires
        is_order_statistic(keys, k, v),
        is_order_statistic(keys, k, w),
    ensures
        v == w,
{
    if v < w {
        lemma_filter_len_weaker_pred(keys, |x: i64| x <= v, |x: i64| x < w);
    } else if w < v {
        lemma_filter_len_weaker_pred(keys, |x: i64| x <= w, |x: i64| x < v);
    }
}

/// Median law: the middle of a non-empty sample of `n` keys is its order
/// statistic of rank `n/2` when `n` is odd, and its order statistics of
/// ranks `n/2 − 1` and `n/2` when `n` is even.
pub proof fn lemma_middle_keys_are_order_statistics(keys: Seq<i64>)
    requires
        keys.len() > 0,
    ensures
        keys.len() % 2 == 1 ==> (middle_of(keys) matches MiddleKeys::Single(m)
            && is_order_statistic(keys, (keys.len() / 2) as int, m)),
        keys.len() % 2 == 0 ==> (middle_of(keys) matches MiddleKeys::Pair(lo, hi)
            && is_order_statistic(keys, keys.len() / 2 - 1, lo) && is_order_statistic(
            keys,
            (keys.len() / 2) as int,
            hi,
        )),
{
    let n = keys.len();
    lemma_sorted_entry_is_order_statistic(keys, (n / 2) as int);
    if n % 2 == 0 {
        lemma_sorted_entry_is_order_statistic(keys, n / 2 - 1);
    }
}

} // verus!
