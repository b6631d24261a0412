//! Pinned windows.

use crate::search::{lemma_filter_all, lemma_filter_start, lemma_filter_step};
use crate::snapshot::contains_id;
use vstd::prelude::*;

verus! {

/// A window bound to a workspace key rather than to a set: it is carried
/// to `<key>(<set>)` whenever the set on show changes.
#[derive(Debug, Clone, Copy, PartialEq, Eq, Structural)]
pub struct Pin {
    pub con_id: i64,
    pub key: char,
}

/// The windows of pins.
pub open spec fn pinned_windows(pins: Seq<Pin>) -> Seq<i64> {
    pins.map_values(|pin: Pin| pin.con_id)
}

/// Whether no window is pinned twice.
pub open spec fn pinned_once(pins: Seq<Pin>) -> bool {
    pinned_windows(pins).no_duplicates()
}

/// The pins of windows that are among `live`.
pub open spec fn live_pins(pins: Seq<Pin>, live: Seq<i64>) -> Seq<Pin> {
    pins.filter(|pin: Pin| live.contains(pin.con_id))
}

/// The pins of other windows.
pub open spec fn unpinned_from(pins: Seq<Pin>, con_id: i64) -> Seq<Pin> {
    pins.filter(|pin: Pin| pin.con_id != con_id)
}

/// The windows of pins.
pub fn pinned_ids(pins: &[Pin]) -> (r: Vec<i64>)
    ensures
        r@ == pinned_windows(pins@),
{
    let mut ids: Vec<i64> = Vec::new();
    let mut i: usize = 0;
    while i < pins.len()
        invariant
            i <= pins@.len(),
            ids@ == pinned_windows(pins@).take(i as int),
        decreases pins.len() - i,
    {
        ids.push(pins[i].con_id);
        i += 1;
    }
    ids
}

/// The pins of windows that are among `live`.
pub fn retain_live_pins(pins: &[Pin], live: &[i64]) -> (r: Vec<Pin>)
    ensures
        r@ == live_pins(pins@, live@),
{
    let ghost f = |pin: Pin| live@.contains(pin.con_id);
    let mut kept: Vec<Pin> = Vec::new();
    let mut i: usize = 0;
    proof {
        lemma_filter_start(pins@, f);
    }
    while i < pins.len()
        invariant
            i <= pins@.len(),
            f == (|pin: Pin| live@.contains(pin.con_id)),
            kept@ == pins@.take(i as int).filter(f),
        decreases pins.len() - i,
    {
        proof {
            lemma_filter_step(pins@, f, i as int);
        }
        if contains_id(live, pins[i].con_id) {
            kept.push(pins[i]);
        }
        i += 1;
    }
    assert(pins@.take(i as int) == pins@);
    kept
}

/// The pins of other windows.
pub fn pins_without(pins: &[Pin], con_id: i64) -> (r: Vec<Pin>)
    ensures
        r@ == unpinned_from(pins@, con_id),
{
    let ghost f = |pin: Pin| pin.con_id != con_id;
    let mut kept: Vec<Pin> = Vec::new();
    let mut i: usize = 0;
    proof {
        lemma_filter_start(pins@, f);
    }
    while i < pins.len()
        invariant
            i <= pins@.len(),
            f == (|pin: Pin| pin.con_id != con_id),
            kept@ == pins@.take(i as int).filter(f),
        decreases pins.len() - i,
    {
        proof {
            lemma_filter_step(pins@, f, i as int);
        }
        if pins[i].con_id != con_id {
            kept.push(pins[i]);
        }
        i += 1;
    }
    assert(pins@.take(i as int) == pins@);
    kept
}

/// Pins left out leave no window pinned twice.
proof fn lemma_filter_pinned_once(pins: Seq<Pin>, f: spec_fn(Pin) -> bool)
    requires
        pinned_once(pins),
    ensures
        pinned_once(pins.filter(f)),
    decreases pins.len(),
{
    reveal(Seq::filter);
    if pins.len() > 0 {
        let front = pins.drop_last();
        assert(pinned_windows(front) == pinned_windows(pins).drop_last());
        lemma_filter_pinned_once(front, f);
        let kept = front.filter(f);
        if f(pins.last()) {
            assert forall|i: int| 0 <= i < kept.len() implies pinned_windows(kept)[i]
                != pins.last().con_id by {
                assert(kept.contains(kept[i]));
                front.lemma_filter_contains_rev(f, kept[i]);
                let j = choose|j: int| 0 <= j < front.len() && front[j] == kept[i];
                assert(pinned_windows(pins)[j] == kept[i].con_id);
                assert(pinned_windows(pins)[pins.len() - 1] == pins.last().con_id);
            }
            assert(pinned_windows(kept.push(pins.last())) == pinned_windows(kept).push(
                pins.last().con_id,
            ));
        }
    }
}

/// Dropping the pins of closed windows leaves no window pinned twice.
pub broadcast proof fn lemma_live_pins_once(pins: Seq<Pin>, live: Seq<i64>)
    requires
        pinned_once(pins),
    ensures
        pinned_once(#[trigger] live_pins(pins, live)),
{
    lemma_filter_pinned_once(pins, |pin: Pin| live.contains(pin.con_id));
}

/// Unpinning a window leaves no window pinned twice.
pub broadcast proof fn lemma_unpinned_once(pins: Seq<Pin>, con_id: i64)
    requires
        pinned_once(pins),
    ensures
        pinned_once(#[trigger] unpinned_from(pins, con_id)),
{
    lemma_filter_pinned_once(pins, |pin: Pin| pin.con_id != con_id);
}

/// Pinning a window anew leaves no window pinned twice.
pub broadcast proof fn lemma_repinned_once(pins: Seq<Pin>, con_id: i64, key: char)
    requires
        pinned_once(pins),
    ensures
        pinned_once(#[trigger] unpinned_from(pins, con_id).push(Pin { con_id, key })),
{
    let pin = Pin { con_id, key };
    let rest = unpinned_from(pins, con_id);
    lemma_unpinned_once(pins, con_id);
    law_unpinning_undoes_pinning(pins, pin);
    assert(rest.push(pin).drop_last() == rest);
    assert forall|i: int| 0 <= i < rest.len() implies pinned_windows(rest)[i] != con_id by {
        assert(pinned_windows(rest).contains(pinned_windows(rest)[i]));
    }
    assert(pinned_windows(rest.push(pin)) == pinned_windows(rest).push(con_id));
}

/// Pinning a window takes the place of any pin it had, and unpinning it then
/// leaves the pins of other windows as they were.
pub proof fn law_unpinning_undoes_pinning(pins: Seq<Pin>, pin: Pin)
    ensures
        ({
            let after = unpinned_from(pins, pin.con_id).push(pin);
            &&& !pinned_windows(after.drop_last()).contains(pin.con_id)
            &&& unpinned_from(after, pin.con_id) == unpinned_from(pins, pin.con_id)
        }),
{
    let f = |p: Pin| p.con_id != pin.con_id;
    let rest = unpinned_from(pins, pin.con_id);
    let after = rest.push(pin);
    assert(after.drop_last() == rest);
    assert forall|i: int| 0 <= i < rest.len() implies f(#[trigger] rest[i]) by {
        pins.lemma_filter_pred(f, i);
    }
    assert forall|i: int| 0 <= i < rest.len() implies pinned_windows(rest)[i] != pin.con_id by {
        assert(f(rest[i]));
    }
    lemma_filter_all(rest, f);
    reveal(Seq::filter);
    assert(after.filter(f) == rest.filter(f));
}

} // verus!
