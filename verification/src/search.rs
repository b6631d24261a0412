//! Searching sequences.

use vstd::prelude::*;

verus! {

/// The first item that satisfies `f`.
pub open spec fn first<T>(items: Seq<T>, f: spec_fn(T) -> bool) -> Option<T>
    decreases items.len(),
{
    if items.len() == 0 {
        None
    } else {
        match first(items.drop_last(), f) {
            Some(found) => Some(found),
            None => if f(items.last()) {
                Some(items.last())
            } else {
                None
            },
        }
    }
}

/// The first item that satisfies `f` stands somewhere in the sequence, and
/// none before it satisfies `f`.
pub proof fn lemma_first<T>(items: Seq<T>, f: spec_fn(T) -> bool)
    ensures
        match first(items, f) {
            Some(found) => exists|i: int|
                0 <= i < items.len() && #[trigger] items[i] == found && f(found) && forall|j: int|
                    0 <= j < i ==> !f(#[trigger] items[j]),
            None => forall|i: int| 0 <= i < items.len() ==> !f(#[trigger] items[i]),
        },
    decreases items.len(),
{
    if items.len() > 0 {
        let front = items.drop_last();
        lemma_first(front, f);
        match first(front, f) {
            Some(found) => {
                let i = choose|i: int|
                    0 <= i < front.len() && #[trigger] front[i] == found && f(found) && forall|
                        j: int,
                    |
                        0 <= j < i ==> !f(#[trigger] front[j]);
                assert(items[i] == found);
                assert forall|j: int| 0 <= j < i implies !f(#[trigger] items[j]) by {
                    assert(front[j] == items[j]);
                }
            },
            None => {
                assert forall|j: int| 0 <= j < items.len() - 1 implies !f(#[trigger] items[j]) by {
                    assert(front[j] == items[j]);
                }
                if f(items.last()) {
                    assert(items[items.len() - 1] == items.last());
                }
            },
        }
    }
}

/// The item at `i` is the first that satisfies `f` when it does and none
/// before it does.
pub proof fn lemma_first_at<T>(items: Seq<T>, f: spec_fn(T) -> bool, i: int)
    requires
        0 <= i < items.len(),
        f(items[i]),
        forall|j: int| 0 <= j < i ==> !f(#[trigger] items[j]),
    ensures
        first(items, f) == Some(items[i]),
{
    lemma_first(items, f);
}

/// No item satisfies `f`, so there is no first.
pub proof fn lemma_first_none<T>(items: Seq<T>, f: spec_fn(T) -> bool)
    requires
        forall|j: int| 0 <= j < items.len() ==> !f(#[trigger] items[j]),
    ensures
        first(items, f) is None,
{
    lemma_first(items, f);
}

/// One more item takes one more step of a filter.
pub proof fn lemma_filter_step<T>(items: Seq<T>, f: spec_fn(T) -> bool, i: int)
    requires
        0 <= i < items.len(),
    ensures
        items.take(i + 1).filter(f) == if f(items[i]) {
            items.take(i).filter(f).push(items[i])
        } else {
            items.take(i).filter(f)
        },
{
    reveal(Seq::filter);
    assert(items.take(i + 1).drop_last() == items.take(i));
}

/// Nothing filtered is nothing.
pub proof fn lemma_filter_start<T>(items: Seq<T>, f: spec_fn(T) -> bool)
    ensures
        items.take(0).filter(f) == Seq::<T>::empty(),
{
    reveal(Seq::filter);
}

/// A filter that every item passes keeps them all.
pub proof fn lemma_filter_all<T>(items: Seq<T>, f: spec_fn(T) -> bool)
    requires
        forall|i: int| 0 <= i < items.len() ==> f(#[trigger] items[i]),
    ensures
        items.filter(f) == items,
    decreases items.len(),
{
    reveal(Seq::filter);
    if items.len() > 0 {
        lemma_filter_all(items.drop_last(), f);
        assert(items.drop_last().push(items.last()) == items);
    }
}

/// Items that differ still differ when some are left out.
pub proof fn lemma_filter_no_duplicates<T>(items: Seq<T>, f: spec_fn(T) -> bool)
    requires
        items.no_duplicates(),
    ensures
        items.filter(f).no_duplicates(),
    decreases items.len(),
{
    reveal(Seq::filter);
    if items.len() > 0 {
        let front = items.drop_last();
        let kept = front.filter(f);
        lemma_filter_no_duplicates(front, f);
        assert forall|i: int| 0 <= i < kept.len() implies kept[i] != items.last() by {
            assert(kept.contains(kept[i]));
            front.lemma_filter_contains_rev(f, kept[i]);
        }
    }
}

/// The first item stays the first of those that satisfy `f`, if it does.
pub proof fn lemma_filter_first<T>(items: Seq<T>, f: spec_fn(T) -> bool)
    requires
        items.len() > 0,
        f(items[0]),
    ensures
        items.filter(f).len() > 0,
        items.filter(f)[0] == items[0],
    decreases items.len(),
{
    reveal(Seq::filter);
    if items.len() > 1 {
        lemma_filter_first(items.drop_last(), f);
    } else {
        assert(items.drop_last().filter(f) == Seq::<T>::empty());
    }
}

} // verus!
