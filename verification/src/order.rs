//! Sorting by a strict order, with items alike in it left as they were.

use vstd::prelude::*;

verus! {

/// `s`, which is in order, with `x` behind every item it does not go before.
pub open spec fn insert_by<A>(s: Seq<A>, x: A, less: spec_fn(A, A) -> bool) -> Seq<A>
    decreases s.len(),
{
    if s.len() == 0 || !less(x, s.last()) {
        s.push(x)
    } else {
        insert_by(s.drop_last(), x, less).push(s.last())
    }
}

/// The items of `s` in order, those alike as they were.
pub open spec fn sort_by<A>(s: Seq<A>, less: spec_fn(A, A) -> bool) -> Seq<A>
    decreases s.len(),
{
    if s.len() == 0 {
        s
    } else {
        insert_by(sort_by(s.drop_last(), less), s.last(), less)
    }
}

/// Whether no item of `s` goes before one that stands ahead of it.
pub open spec fn in_order<A>(s: Seq<A>, less: spec_fn(A, A) -> bool) -> bool {
    forall|i: int, j: int| 0 <= i < j < s.len() ==> !less(#[trigger] s[j], #[trigger] s[i])
}

/// Whether `less` puts items before one another the way numbers are: none
/// before itself, and what is not before a third, through a second, is not
/// before it at all.
pub open spec fn orders<A>(less: spec_fn(A, A) -> bool) -> bool {
    &&& forall|a: A| !#[trigger] less(a, a)
    &&& forall|a: A, b: A, c: A|
        !#[trigger] less(b, a) && !#[trigger] less(c, b) ==> !less(c, a)
    &&& forall|a: A, b: A| #[trigger] less(a, b) ==> !less(b, a)
}

proof fn lemma_insert_keeps_items<A>(s: Seq<A>, x: A, less: spec_fn(A, A) -> bool)
    ensures
        insert_by(s, x, less).to_multiset() == s.to_multiset().insert(x),
        insert_by(s, x, less).len() == s.len() + 1,
    decreases s.len(),
{
    broadcast use vstd::seq_lib::group_to_multiset_ensures;

    if s.len() == 0 || !less(x, s.last()) {
    } else {
        lemma_insert_keeps_items(s.drop_last(), x, less);
        assert(s =~= s.drop_last().push(s.last()));
        assert(insert_by(s, x, less).to_multiset() =~= s.to_multiset().insert(x));
    }
}

/// Sorting keeps every item, as often as it was there.
pub proof fn sorting_keeps_every_item<A>(s: Seq<A>, less: spec_fn(A, A) -> bool)
    ensures
        sort_by(s, less).to_multiset() == s.to_multiset(),
        sort_by(s, less).len() == s.len(),
    decreases s.len(),
{
    broadcast use vstd::seq_lib::group_to_multiset_ensures;

    if s.len() > 0 {
        sorting_keeps_every_item(s.drop_last(), less);
        lemma_insert_keeps_items(sort_by(s.drop_last(), less), s.last(), less);
        assert(s =~= s.drop_last().push(s.last()));
    }
}

proof fn lemma_insert_in_order<A>(s: Seq<A>, x: A, less: spec_fn(A, A) -> bool)
    requires
        orders(less),
        in_order(s, less),
    ensures
        in_order(insert_by(s, x, less), less),
        forall|i: int|
            0 <= i < insert_by(s, x, less).len() ==> (#[trigger] insert_by(s, x, less)[i] == x
                || s.contains(insert_by(s, x, less)[i])),
        insert_by(s, x, less).len() == s.len() + 1,
    decreases s.len(),
{
    let r = insert_by(s, x, less);
    if s.len() == 0 || !less(x, s.last()) {
        assert forall|i: int, j: int| 0 <= i < j < r.len() implies !less(
            #[trigger] r[j],
            #[trigger] r[i],
        ) by {
            if j == s.len() {
                assert(!less(s.last(), s[i]));
            }
        }
        assert forall|i: int| 0 <= i < r.len() implies (#[trigger] r[i] == x || s.contains(
            r[i],
        )) by {
            if i < s.len() {
                assert(s[i] == r[i]);
            }
        }
    } else {
        let head = insert_by(s.drop_last(), x, less);
        lemma_insert_in_order(s.drop_last(), x, less);
        assert forall|i: int, j: int| 0 <= i < j < r.len() implies !less(
            #[trigger] r[j],
            #[trigger] r[i],
        ) by {
            if j == head.len() {
                assert(r[i] == head[i]);
                if head[i] != x {
                    assert(s.drop_last().contains(head[i]));
                    let k = choose|k: int|
                        0 <= k < s.drop_last().len() && s.drop_last()[k] == head[i];
                    assert(s[k] == head[i]);
                }
            } else {
                assert(r[i] == head[i] && r[j] == head[j]);
            }
        }
        assert forall|i: int| 0 <= i < r.len() implies (#[trigger] r[i] == x || s.contains(
            r[i],
        )) by {
            if i < head.len() {
                assert(r[i] == head[i]);
                if head[i] != x {
                    let k = choose|k: int|
                        0 <= k < s.drop_last().len() && s.drop_last()[k] == head[i];
                    assert(s[k] == head[i]);
                }
            } else {
                assert(s[s.len() - 1] == r[i]);
            }
        }
    }
}

/// What is sorted is in order.
pub proof fn what_is_sorted_is_in_order<A>(s: Seq<A>, less: spec_fn(A, A) -> bool)
    requires
        orders(less),
    ensures
        in_order(sort_by(s, less), less),
    decreases s.len(),
{
    if s.len() > 0 {
        what_is_sorted_is_in_order(s.drop_last(), less);
        lemma_insert_in_order(sort_by(s.drop_last(), less), s.last(), less);
    }
}

} // verus!
