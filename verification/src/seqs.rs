//! Sequences of items: tests of all their elements, and what filtering and
//! counting them comes to.

use vstd::prelude::*;

verus! {

/// Each of `items` passes `test`.
pub open spec fn every<P>(items: Seq<P>, test: spec_fn(P) -> bool) -> bool {
    forall|i: int| 0 <= i < items.len() ==> test(#[trigger] items[i])
}

/// The items that a sequence of references points to.
pub open spec fn values<P>(refs: Seq<&P>) -> Seq<P> {
    refs.map_values(|item: &P| *item)
}

/// Items that all pass a test still do when one more that passes it has
/// joined them, in whatever order.
pub proof fn lemma_every_gains<P>(before: Seq<P>, after: Seq<P>, item: P, test: spec_fn(P) -> bool)
    requires
        every(before, test),
        test(item),
        after.to_multiset() == before.to_multiset().insert(item),
    ensures
        every(after, test),
{
    broadcast use vstd::seq_lib::group_to_multiset_ensures;

    assert forall|i: int| 0 <= i < after.len() implies test(#[trigger] after[i]) by {
        let x = after[i];
        assert(after.contains(x));
        assert(after.to_multiset().count(x) > 0);
        if x != item {
            assert(before.to_multiset().count(x) > 0);
            assert(before.contains(x));
        }
    }
}

/// Items that one more has joined are one more.
pub proof fn lemma_len_gains<P>(before: Seq<P>, after: Seq<P>, item: P)
    requires
        after.to_multiset() == before.to_multiset().insert(item),
    ensures
        after.len() == before.len() + 1,
{
    vstd::seq_lib::to_multiset_len(before);
    vstd::seq_lib::to_multiset_len(after);
}

/// A test that every item passes filters none out.
pub proof fn lemma_filter_keeps_all<P>(items: Seq<P>, test: spec_fn(P) -> bool)
    requires
        every(items, test),
    ensures
        items.filter(test) == items,
    decreases items.len(),
{
    if items.len() == 0 {
        reveal(Seq::filter);
    } else {
        let front = items.drop_last();
        assert forall|i: int| 0 <= i < front.len() implies test(#[trigger] front[i]) by {
            assert(front[i] == items[i]);
        }
        lemma_filter_keeps_all(front, test);
        front.lemma_filter_push(items.last(), test);
        assert(front.push(items.last()) =~= items);
    }
}

/// Two tests that agree on every item filter the same items out.
pub proof fn lemma_filter_agrees<P>(items: Seq<P>, one: spec_fn(P) -> bool, other: spec_fn(P) -> bool)
    requires
        forall|i: int| 0 <= i < items.len() ==> one(#[trigger] items[i]) == other(items[i]),
    ensures
        items.filter(one) == items.filter(other),
    decreases items.len(),
{
    if items.len() == 0 {
        reveal(Seq::filter);
    } else {
        let front = items.drop_last();
        assert forall|i: int| 0 <= i < front.len() implies one(#[trigger] front[i]) == other(
            front[i],
        ) by {
            assert(front[i] == items[i]);
        }
        lemma_filter_agrees(front, one, other);
        front.lemma_filter_push(items.last(), one);
        front.lemma_filter_push(items.last(), other);
        assert(front.push(items.last()) =~= items);
    }
}

/// Filtering by one test and then by another is filtering by both.
pub proof fn lemma_filter_twice<P>(items: Seq<P>, first: spec_fn(P) -> bool, then: spec_fn(P) -> bool)
    ensures
        items.filter(first).filter(then) == items.filter(|item: P| first(item) && then(item)),
    decreases items.len(),
{
    let both = |item: P| first(item) && then(item);
    if items.len() == 0 {
        reveal(Seq::filter);
    } else {
        let front = items.drop_last();
        lemma_filter_twice(front, first, then);
        front.lemma_filter_push(items.last(), first);
        front.lemma_filter_push(items.last(), both);
        front.filter(first).lemma_filter_push(items.last(), then);
        assert(front.push(items.last()) =~= items);
    }
}

/// The items in the opposite order.
pub fn reversed<P>(items: Vec<P>) -> (r: Vec<P>)
    ensures
        r@ == items@.reverse(),
{
    let ghost given = items@;
    let mut items = items;
    let mut turned: Vec<P> = Vec::with_capacity(items.len());
    while items.len() > 0
        invariant
            items@ == given.take(items@.len() as int),
            items@.len() <= given.len(),
            turned@ == given.skip(items@.len() as int).reverse(),
        decreases items@.len(),
    {
        let ghost left = items@.len();
        match items.pop() {
            Some(last) => {
                turned.push(last);
                assert(turned@ =~= given.skip(left - 1).reverse());
                assert(items@ =~= given.take(left - 1));
            },
            None => {},
        }
    }
    assert(given.skip(0) =~= given);
    turned
}

} // verus!
