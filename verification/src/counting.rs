//! Counting cells that satisfy a predicate, and the cardinality of a
//! family of disjoint index lists that covers them.

use vstd::prelude::*;

verus! {

/// How many of the cells `0 .. n` satisfy `pred`.
pub open spec fn count_matching(pred: spec_fn(int) -> bool, n: int) -> int
    decreases n,
{
    if n <= 0 {
        0
    } else {
        count_matching(pred, n - 1) + if pred(n - 1) {
            1int
        } else {
            0int
        }
    }
}

/// The set of cells `0 .. n` that satisfy `pred`.
pub open spec fn matching_set(pred: spec_fn(int) -> bool, n: int) -> Set<int> {
    Set::new(|j: int| 0 <= j < n && pred(j))
}

/// Counting matches is computing the cardinality of the matching set.
pub proof fn lemma_count_matching_is_len(pred: spec_fn(int) -> bool, n: int)
    requires
        n >= 0,
    ensures
        matching_set(pred, n).finite(),
        matching_set(pred, n).len() == count_matching(pred, n),
    decreases n,
{
    if n == 0 {
        assert(matching_set(pred, 0) =~= Set::empty());
    } else {
        lemma_count_matching_is_len(pred, n - 1);
        if pred(n - 1) {
            assert(matching_set(pred, n) =~= matching_set(pred, n - 1).insert(n - 1));
            assert(!matching_set(pred, n - 1).contains(n - 1));
        } else {
            assert(matching_set(pred, n) =~= matching_set(pred, n - 1));
        }
    }
}

/// A cell below `n` either matches or does not: the two counts add up.
pub proof fn lemma_count_split(pred: spec_fn(int) -> bool, neg: spec_fn(int) -> bool, n: int)
    requires
        n >= 0,
        forall|j: int| 0 <= j < n ==> (#[trigger] pred(j) <==> !neg(j)),
    ensures
        count_matching(pred, n) + count_matching(neg, n) == n,
    decreases n,
{
    if n > 0 {
        lemma_count_split(pred, neg, n - 1);
    }
}

/// The cardinality of a disjoint union is the sum of the cardinalities.
pub proof fn lemma_disjoint_union_len<A>(s1: Set<A>, s2: Set<A>)
    requires
        s1.finite(),
        s2.finite(),
        forall|a: A| !(s1.contains(a) && #[trigger] s2.contains(a)),
    ensures
        s1.union(s2).finite(),
        s1.union(s2).len() == s1.len() + s2.len(),
    decreases s1.len(),
{
    if s1.is_empty() {
        assert(s1.union(s2) =~= s2);
        assert(s1.len() == 0);
    } else {
        let a = s1.choose();
        assert(s1.contains(a));
        assert(s1.union(s2).remove(a) =~= s1.remove(a).union(s2));
        lemma_disjoint_union_len(s1.remove(a), s2);
        assert(s1.union(s2).contains(a));
        assert(s1.union(s2).len() == s1.union(s2).remove(a).len() + 1);
    }
}

/// The total length of a family of index lists.
pub open spec fn sum_lens(parts: Seq<Seq<int>>) -> int
    decreases parts.len(),
{
    if parts.len() == 0 {
        0
    } else {
        sum_lens(parts.drop_last()) + parts.last().len()
    }
}

/// The set of all indices that occur in a family of index lists.
pub open spec fn union_of(parts: Seq<Seq<int>>) -> Set<int>
    decreases parts.len(),
{
    if parts.len() == 0 {
        Set::empty()
    } else {
        union_of(parts.drop_last()).union(parts.last().to_set())
    }
}

/// For a family of duplicate-free, pairwise disjoint index lists, the
/// total length is the cardinality of the union.
pub proof fn lemma_union_of_len(parts: Seq<Seq<int>>)
    requires
        forall|k: int| 0 <= k < parts.len() ==> (#[trigger] parts[k]).no_duplicates(),
        forall|k1: int, k2: int, e: int|
            #![trigger parts[k1].contains(e), parts[k2].contains(e)]
            0 <= k1 < k2 < parts.len() && parts[k1].contains(e) ==> !parts[k2].contains(e),
    ensures
        union_of(parts).finite(),
        union_of(parts).len() == sum_lens(parts),
        forall|e: int| union_of(parts).contains(e) <==> exists|k: int|
            0 <= k < parts.len() && #[trigger] parts[k].contains(e),
    decreases parts.len(),
{
    broadcast use vstd::seq_lib::seq_to_set_is_finite;

    if parts.len() == 0 {
        assert(union_of(parts) =~= Set::empty());
        assert forall|e: int| union_of(parts).contains(e) implies exists|k: int|
            0 <= k < parts.len() && #[trigger] parts[k].contains(e) by {}
    } else {
        let init = parts.drop_last();
        let last = parts.last();
        assert forall|k: int| 0 <= k < init.len() implies (#[trigger] init[k]).no_duplicates() by {
            assert(init[k] == parts[k]);
        }
        assert forall|k1: int, k2: int, e: int|
            #![trigger init[k1].contains(e), init[k2].contains(e)]
            0 <= k1 < k2 < init.len() && init[k1].contains(e) implies !init[k2].contains(e) by {
            assert(init[k1] == parts[k1] && init[k2] == parts[k2]);
        }
        lemma_union_of_len(init);
        last.unique_seq_to_set();
        assert forall|a: int| !(union_of(init).contains(a) && #[trigger] last.to_set().contains(
            a,
        )) by {
            if union_of(init).contains(a) && last.to_set().contains(a) {
                let k = choose|k: int| 0 <= k < init.len() && #[trigger] init[k].contains(a);
                assert(parts[k].contains(a));
                assert(parts[parts.len() - 1].contains(a));
            }
        }
        lemma_disjoint_union_len(union_of(init), last.to_set());
        assert forall|e: int| union_of(parts).contains(e) implies exists|k: int|
            0 <= k < parts.len() && #[trigger] parts[k].contains(e) by {
            if union_of(init).contains(e) {
                let k = choose|k: int| 0 <= k < init.len() && #[trigger] init[k].contains(e);
                assert(parts[k].contains(e));
            } else {
                assert(last.to_set().contains(e));
                assert(parts[parts.len() - 1].contains(e));
            }
        }
        assert forall|e: int|
            (exists|k: int| 0 <= k < parts.len() && #[trigger] parts[k].contains(e))
            implies union_of(parts).contains(e) by {
            let k = choose|k: int| 0 <= k < parts.len() && #[trigger] parts[k].contains(e);
            if k < parts.len() - 1 {
                assert(init[k].contains(e));
            } else {
                assert(last.contains(e));
            }
        }
    }
}

/// A family of duplicate-free, pairwise disjoint index lists over
/// `0 .. n` has total length at most `n`.
pub proof fn lemma_sum_lens_bound(parts: Seq<Seq<int>>, n: int)
    requires
        n >= 0,
        forall|k: int| 0 <= k < parts.len() ==> (#[trigger] parts[k]).no_duplicates(),
        forall|k: int, e: int|
            0 <= k < parts.len() && (#[trigger] parts[k].contains(e)) ==> 0 <= e < n,
        forall|k1: int, k2: int, e: int|
            #![trigger parts[k1].contains(e), parts[k2].contains(e)]
            0 <= k1 < k2 < parts.len() && parts[k1].contains(e) ==> !parts[k2].contains(e),
    ensures
        0 <= sum_lens(parts) <= n,
{
    lemma_union_of_len(parts);
    assert(union_of(parts).subset_of(vstd::set_lib::set_int_range(0, n)));
    vstd::set_lib::lemma_int_range(0, n);
    vstd::set_lib::lemma_len_subset(union_of(parts), vstd::set_lib::set_int_range(0, n));
}

/// A family of duplicate-free, pairwise disjoint index lists whose
/// members are exactly the cells of `0 .. n` satisfying `pred` has total
/// length `count_matching(pred, n)`.
pub proof fn lemma_partition_count(pred: spec_fn(int) -> bool, n: int, parts: Seq<Seq<int>>)
    requires
        n >= 0,
        forall|k: int| 0 <= k < parts.len() ==> (#[trigger] parts[k]).no_duplicates(),
        forall|k: int, e: int|
            0 <= k < parts.len() && (#[trigger] parts[k].contains(e)) ==> 0 <= e < n && pred(e),
        forall|k1: int, k2: int, e: int|
            #![trigger parts[k1].contains(e), parts[k2].contains(e)]
            0 <= k1 < k2 < parts.len() && parts[k1].contains(e) ==> !parts[k2].contains(e),
        forall|j: int|
            0 <= j < n && #[trigger] pred(j) ==> exists|k: int|
                0 <= k < parts.len() && #[trigger] parts[k].contains(j),
    ensures
        sum_lens(parts) == count_matching(pred, n),
{
    lemma_union_of_len(parts);
    lemma_count_matching_is_len(pred, n);
    assert(union_of(parts) =~= matching_set(pred, n));
}

} // verus!
