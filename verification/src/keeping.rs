//! What a user may rely on of single commands: they act on the set that the
//! focused monitor is assigned, a key reaches the same workspace whatever is
//! done there, a window's pin outlasts what is done with others, and no window
//! is left behind where they are delivered.

use crate::account::{
    assignments_in, brought, claimed, commanded, iced_in, lemma_claimed, lemma_used, once_asked,
    pins_in, reply, sets_in, succeeded, used, went_on,
};
use crate::assignments::{
    assigned, law_assigned_set_is_shown_on_its_monitor_alone,
    law_new_monitor_is_given_the_first_set_not_taken, planned, resolved, taken,
};
use crate::carrying::lemma_grows;
use crate::change::{carry_out_program, carry_pins_program, ensure_set_program};
use crate::command::{deliver_snapshot_program, obey_program, pin_key, Intent};
use crate::conduct::{
    besides, is_pinned, law_commands_do_what_is_said_of_them, lemma_delivered, printed,
};
use crate::dialogue::{Ask, Dialogue, File, Halt, Output, Reply};
use crate::json::object_text;
use crate::parking::moves;
use crate::pins::{pinned_windows, unpinned_from, Pin};
use crate::promises::{
    assigned_in, id_of, lemma_brought_quietly, lemma_elsewhere_taken, lemma_here,
    lemma_taken_elsewhere, sent_between, shown_elsewhere,
};
use crate::resume::{
    lemma_carry_out_steady, lemma_carry_pins_steady, lemma_ensure_set_steady,
    lemma_touch_set_steady,
};
use crate::screens::{
    connected_monitors, current_set_program, focused_monitor, ids_of, load_program, Display,
};
use crate::search::lemma_filter_all;
use crate::sets::{law_frozen_set_is_listed_by_its_name, list_text};
use crate::snapshot::{all_ids, shots, spliced, Snapshot};
use crate::state::{
    get_pending_target_program, pins_program, save_pins_program, touch_set_program, tree_program,
};
use crate::string_map::TextMap;
use crate::sway::{move_command, switch_command};
use crate::text::{integer, trimmed, upper, view_of};
use crate::tree::{focused_window, focused_workspace, snapshot_of, Node};
use crate::workspace::{
    law_key_is_the_one_character_before_the_set, workspace_named, PARKING_WORKSPACE,
};
use vstd::prelude::*;

verus! {

/// Whether all that was told so far and the first two replies to come tell that
/// the focused monitor is assigned a set.
pub open spec fn shows(d: Dialogue, set: Seq<char>) -> bool {
    &&& d.asked.len() + 2 <= d.replies.len()
    &&& exists|here: Output| #[trigger] assigned_in(reply(d, 0), reply(d, 1), here, Some(set))
}

/// The dialogue once the outputs and the assignments have been asked for.
pub open spec fn looked_at(d: Dialogue) -> Dialogue {
    once_asked(once_asked(d, Ask::Outputs), Ask::Read(File::Assignments))
}

/// What is asked where the focused monitor is assigned a set.
pub proof fn lemma_shows(d: Dialogue, set: Seq<char>)
    requires
        shows(d, set),
    ensures
        ensure_set_program()(d) == (looked_at(d), Ok::<Seq<char>, Halt>(set)),
        sets_in(reply(d, 2)) is Some && d.asked.len() + 3 <= d.replies.len()
            ==> current_set_program()(d) == (
            once_asked(looked_at(d), Ask::Read(File::Sets)),
            Ok::<Seq<char>, Halt>(set),
        ),
{
    let here = choose|here: Output| #[trigger]
        assigned_in(reply(d, 0), reply(d, 1), here, Some(set));
    if let Reply::Outputs(outputs) = reply(d, 0) {
        lemma_here(outputs@, here);
    }
    let (e, r) = load_program()(d);
    assert(e == looked_at(d));
    assert(reply(e, 0) == reply(d, 2));
}

/// Where the focused monitor is assigned a set, `current` prints that one,
/// whatever sets are known.
pub proof fn law_current_prints_the_set_that_is_shown(d: Dialogue, set: Seq<char>)
    requires
        shows(d, set),
        obey_program(Intent::Current)(d).1 is Ok,
    ensures
        obey_program(Intent::Current)(d).0.asked == d.asked + seq![
            Ask::Outputs,
            Ask::Read(File::Assignments),
            Ask::Read(File::Sets),
            Ask::Print(set),
        ],
{
    let e = obey_program(Intent::Current)(d).0;
    let (m, r) = current_set_program()(d);
    lemma_shows(d, set);
    assert(e.asked == d.asked + seq![
        Ask::Outputs,
        Ask::Read(File::Assignments),
        Ask::Read(File::Sets),
        Ask::Print(set),
    ]);
}

/// Where the focused monitor is assigned a set, freezing and thawing without a
/// name do with that one what they do where it is named.
pub proof fn law_without_a_name_the_set_that_is_shown_is_meant(d: Dialogue, set: Seq<char>)
    requires
        shows(d, set),
        d.asked.len() + 3 <= d.replies.len(),
        sets_in(reply(d, 2)) is Some,
    ensures
        ({
            let m = once_asked(looked_at(d), Ask::Read(File::Sets));
            &&& obey_program(Intent::Ice { set: None })(d) == obey_program(
                Intent::Ice { set: Some(set) },
            )(m)
            &&& obey_program(Intent::Thaw { set: None })(d) == obey_program(
                Intent::Thaw { set: Some(set) },
            )(m)
        }),
{
    lemma_shows(d, set);
}

/// Only where the focused monitor is assigned none, another set is taken: one
/// that no other connected monitor shows; a known one, if there is such a set.
pub proof fn law_current_prints_a_free_set_otherwise(d: Dialogue, here: Output)
    requires
        d.answered(),
        assigned_in(reply(d, 0), reply(d, 1), here, None),
        obey_program(Intent::Current)(d).1 is Ok,
    ensures
        exists|set: Seq<char>, known: Seq<Seq<char>>|
            #![trigger known.contains(set)]
            {
                &&& obey_program(Intent::Current)(d).0.asked == d.asked + seq![
                    Ask::Outputs,
                    Ask::Read(File::Assignments),
                    Ask::Read(File::Sets),
                    Ask::Print(set),
                ]
                &&& sets_in(reply(d, 2)) == Some(known)
                &&& !shown_elsewhere(reply(d, 0), reply(d, 1), here, set)
                &&& {
                    ||| known.contains(set)
                    ||| forall|i: int|
                        0 <= i < known.len() ==> shown_elsewhere(
                            reply(d, 0),
                            reply(d, 1),
                            here,
                            #[trigger] known[i],
                        )
                }
            },
{
    let e = obey_program(Intent::Current)(d).0;
    let (m, r) = current_set_program()(d);
    let set = r->Ok_0;
    let known = sets_in(reply(d, 2))->0;
    if let Reply::Outputs(outputs) = reply(d, 0) {
        lemma_here(outputs@, here);
        let shown = assignments_in(reply(d, 1))->0;
        let connected = ids_of(connected_monitors(outputs@));
        let (l, rl) = load_program()(d);
        assert(l == looked_at(d));
        assert(reply(l, 0) == reply(d, 2));
        assert(set == resolved(shown, id_of(here), connected, known));
        law_new_monitor_is_given_the_first_set_not_taken(shown, id_of(here), connected, known);
        if shown_elsewhere(reply(d, 0), reply(d, 1), here, set) {
            lemma_elsewhere_taken(outputs@, here, shown, set);
        }
        if !known.contains(set) {
            assert forall|i: int| 0 <= i < known.len() implies shown_elsewhere(
                reply(d, 0),
                reply(d, 1),
                here,
                #[trigger] known[i],
            ) by {
                assert(taken(shown, id_of(here), connected, known[i]));
                lemma_taken_elsewhere(outputs@, here, shown, known[i]);
            }
        }
    }
    assert(e.asked == d.asked + seq![
        Ask::Outputs,
        Ask::Read(File::Assignments),
        Ask::Read(File::Sets),
        Ask::Print(set),
    ]);
}

/// The name of the workspace that a key reaches in a set.
pub open spec fn key_name(key: char, set: Seq<char>) -> Seq<char> {
    seq![upper(key), '('] + set + seq![')']
}

/// Where the focused monitor is assigned a set, `switch` shows the workspace of
/// that set that the key reaches, in upper case, and `move` moves the focused
/// window there. Nothing else is asked.
pub proof fn law_key_reaches_its_workspace_of_the_set_that_is_shown(
    d: Dialogue,
    set: Seq<char>,
    key: char,
)
    requires
        shows(d, set),
    ensures
        ({
            let switching = obey_program(Intent::Switch { key })(d);
            let moving = obey_program(Intent::Move { key })(d);
            let run = "workspace \""@ + key_name(key, set) + "\""@;
            &&& switching.0 == once_asked(looked_at(d), Ask::Run(run))
            &&& moving.0 == once_asked(looked_at(d), Ask::Run("move container to "@ + run))
            &&& d.asked.len() + 3 <= d.replies.len() ==> {
                &&& switching.1 is Ok <==> succeeded(reply(d, 2))
                &&& moving.1 is Ok <==> succeeded(reply(d, 2))
            }
        }),
{
    lemma_shows(d, set);
    assert(workspace_named(key, set) == key_name(key, set));
    let m = looked_at(d);
    assert(reply(m, 0) == reply(d, 2));
    reveal_strlit("workspace \"");
    reveal_strlit("move container to ");
    reveal_strlit("move container to workspace \"");
    assert("move container to workspace \""@ == "move container to "@ + "workspace \""@);
    let run = "workspace \""@ + key_name(key, set) + "\""@;
    assert("move container to "@ + run == "move container to workspace \""@ + key_name(key, set)
        + "\""@);
}

/// Whether the set that the monitor shows is known or not, `move` sends the
/// focused window to the very workspace that `switch` shows: both ask the same,
/// up to the last request; and that workspace's key is in upper case, whatever
/// case it was given in.
pub proof fn law_moving_goes_where_switching_goes(d: Dialogue, key: char)
    requires
        d.answered(),
        obey_program(Intent::Switch { key })(d).1 is Ok,
        obey_program(Intent::Move { key })(d).1 is Ok,
    ensures
        ({
            let switching = obey_program(Intent::Switch { key })(d).0;
            let moving = obey_program(Intent::Move { key })(d).0;
            &&& moving.asked.drop_last() == switching.asked.drop_last()
            &&& exists|set: Seq<char>|
                {
                    &&& switching.asked.last() == Ask::Run(
                        "workspace \""@ + #[trigger] key_name(key, set) + "\""@,
                    )
                    &&& moving.asked.last() == Ask::Run(
                        "move container to workspace \""@ + key_name(key, set) + "\""@,
                    )
                }
            &&& obey_program(Intent::Switch { key: upper(key) })(d) == obey_program(
                Intent::Switch { key },
            )(d)
            &&& obey_program(Intent::Move { key: upper(key) })(d) == obey_program(
                Intent::Move { key },
            )(d)
        }),
{
    let (m, r) = ensure_set_program()(d);
    let set = r->Ok_0;
    assert(workspace_named(key, set) == key_name(key, set));
    assert(workspace_named(upper(key), set) == key_name(key, set));
    let switching = obey_program(Intent::Switch { key })(d).0;
    let moving = obey_program(Intent::Move { key })(d).0;
    assert(switching.asked.drop_last() == m.asked);
    assert(moving.asked.drop_last() == m.asked);
}

/// The pins of the windows other than one, in their order.
pub open spec fn of_others(pins: Seq<Pin>, con_id: i64) -> Seq<Pin> {
    pins.filter(|pin: Pin| pin.con_id != con_id)
}

/// Whether the pins that were read are stored again, all but those of one
/// window: the pins of every other window are the same, in the same order.
pub open spec fn stores_pins(
    e: Dialogue,
    at: int,
    con_id: i64,
    before: Seq<Pin>,
    after: Seq<Pin>,
) -> bool {
    &&& 0 < at < e.asked.len() - 1
    &&& e.asked[at - 1] == Ask::Tree
    &&& e.replies[at - 1] matches Reply::Tree(tree)
    &&& focused_window(tree) == Some(con_id)
    &&& e.asked[at] == Ask::ReadPins
    &&& pins_in(e.replies[at]) == Some(before)
    &&& e.asked[at + 1] == Ask::WritePins(after)
    &&& of_others(after, con_id) == of_others(before, con_id)
    &&& forall|pin: Pin|
        pin.con_id != con_id ==> (#[trigger] after.contains(pin) <==> before.contains(pin))
}

proof fn lemma_of_others(pins: Seq<Pin>, con_id: i64, pin: Pin)
    requires
        pin.con_id == con_id,
    ensures
        of_others(of_others(pins, con_id), con_id) == of_others(pins, con_id),
        of_others(of_others(pins, con_id).push(pin), con_id) == of_others(pins, con_id),
        forall|other: Pin|
            other.con_id != con_id ==> (#[trigger] of_others(pins, con_id).contains(other)
                <==> pins.contains(other)),
        forall|other: Pin| #[trigger]
            of_others(pins, con_id).contains(other) ==> other.con_id != con_id,
{
    let f = |pin: Pin| pin.con_id != con_id;
    let rest = of_others(pins, con_id);
    assert(rest == pins.filter(f));
    assert forall|i: int| 0 <= i < rest.len() implies f(#[trigger] rest[i]) by {
        pins.lemma_filter_pred(f, i);
    }
    lemma_filter_all(rest, f);
    assert(rest.push(pin).filter(f) == rest.filter(f)) by {
        reveal(Seq::filter);
        assert(rest.push(pin).drop_last() == rest);
    }
    assert forall|other: Pin| other.con_id != con_id implies (#[trigger] rest.contains(other)
        <==> pins.contains(other)) by {
        if pins.contains(other) {
            pins.lemma_filter_contains(f, pins.index_of(other));
        }
        if rest.contains(other) {
            pins.lemma_filter_contains_rev(f, other);
        }
    }
}

/// Pinning the focused window to a key stores its pin last, and leaves the pins
/// of the other windows as they were.
pub proof fn law_pinning_keeps_the_other_pins(d: Dialogue, key: char)
    requires
        d.answered(),
        obey_program(Intent::Pin { key: Some(key) })(d).1 is Ok,
    ensures
        exists|at: int, con_id: i64, before: Seq<Pin>, after: Seq<Pin>|
            {
                &&& #[trigger] stores_pins(
                    obey_program(Intent::Pin { key: Some(key) })(d).0,
                    at,
                    con_id,
                    before,
                    after,
                )
                &&& after == of_others(before, con_id).push(Pin { con_id, key })
            },
{
    let e = obey_program(Intent::Pin { key: Some(key) })(d).0;
    let (m, r) = ensure_set_program()(d);
    let set = r->Ok_0;
    lemma_ensure_set_steady();
    lemma_grows(ensure_set_program(), d);
    let (m1, r1) = tree_program()(m);
    let con_id = focused_window(r1->Ok_0)->0;
    let (m2, r2) = pins_program()(m1);
    let pins = r2->Ok_0;
    let pin = Pin { con_id, key };
    lemma_of_others(pins, con_id, pin);
    let after = of_others(pins, con_id).push(pin);
    assert(unpinned_from(pins, con_id) == of_others(pins, con_id));
    let s = save_pins_program(after)(m2).0;
    assert(s == once_asked(m2, Ask::WritePins(after)));
    let n = carry_pins_program(set)(s).0;
    lemma_carry_pins_steady(set);
    lemma_grows(carry_pins_program(set), s);
    let at = m1.asked.len() as int;
    assert(s.asked[at - 1] == Ask::Tree && s.asked[at] == Ask::ReadPins);
    assert(s.asked[at + 1] == Ask::WritePins(after));
    assert(n.asked.take(s.asked.len() as int) == s.asked);
    assert(e.asked[at - 1] == s.asked[at - 1]);
    assert(e.asked[at] == s.asked[at]);
    assert(e.asked[at + 1] == s.asked[at + 1]);
    lemma_pushed_last(pins, con_id, pin);
    assert(stores_pins(e, at, con_id, pins, after));
}

proof fn lemma_pushed_last(pins: Seq<Pin>, con_id: i64, pin: Pin)
    requires
        pin.con_id == con_id,
    ensures
        forall|other: Pin|
            other.con_id != con_id ==> (#[trigger] of_others(pins, con_id).push(pin).contains(other)
                <==> pins.contains(other)),
{
    let rest = of_others(pins, con_id);
    let after = rest.push(pin);
    lemma_of_others(pins, con_id, pin);
    assert forall|other: Pin| other.con_id != con_id implies (#[trigger] after.contains(other)
        <==> pins.contains(other)) by {
        if rest.contains(other) {
            assert(after[rest.index_of(other)] == other);
        }
        if after.contains(other) {
            let i = after.index_of(other);
            assert(i < rest.len());
            assert(rest[i] == other);
        }
        assert(rest.contains(other) <==> pins.contains(other));
    }
}

/// Unpinning the focused window takes its pin away, and leaves the pins of the
/// other windows as they were.
pub proof fn law_unpinning_keeps_the_other_pins(d: Dialogue)
    requires
        d.answered(),
        obey_program(Intent::Unpin)(d).1 is Ok,
    ensures
        exists|at: int, con_id: i64, before: Seq<Pin>, after: Seq<Pin>|
            {
                &&& #[trigger] stores_pins(
                    obey_program(Intent::Unpin)(d).0,
                    at,
                    con_id,
                    before,
                    after,
                )
                &&& forall|i: int| 0 <= i < after.len() ==> (#[trigger] after[i]).con_id != con_id
            },
{
    let e = obey_program(Intent::Unpin)(d).0;
    let (m1, r1) = tree_program()(d);
    let con_id = focused_window(r1->Ok_0)->0;
    let (m2, r2) = pins_program()(m1);
    let pins = r2->Ok_0;
    lemma_of_others(pins, con_id, Pin { con_id, key: 'A' });
    let after = of_others(pins, con_id);
    assert(unpinned_from(pins, con_id) == after);
    let at = m1.asked.len() as int;
    assert(e.asked[at + 1] == Ask::WritePins(after));
    assert(stores_pins(e, at, con_id, pins, after));
    assert forall|i: int| 0 <= i < after.len() implies (#[trigger] after[i]).con_id != con_id by {
        assert(after.contains(after[i]));
    }
}

/// Whether a monitor that was assigned none was assigned a set: one that no
/// other connected monitor shows, and a known one, if there is such a set; the
/// connected monitors keep theirs.
pub open spec fn assigns_a_free_set(
    d: Dialogue,
    e: Dialogue,
    here: Output,
    set: Seq<char>,
    known: Seq<Seq<char>>,
    before: TextMap,
    after: TextMap,
) -> bool {
    let n = d.asked.len() as int;
    &&& n + 4 <= e.asked.len()
    &&& e.asked[n + 2] == Ask::Read(File::Sets)
    &&& sets_in(reply(d, 2)) == Some(known)
    &&& assignments_in(reply(d, 1)) == Some(before)
    &&& e.asked[n + 3] == Ask::Write(File::Assignments, object_text(after))
    &&& after.get(id_of(here)) == Some(set)
    &&& forall|other: Seq<char>|
        other != id_of(here) ==> #[trigger] after.get(other) == if before.get(other) == Some(set) {
            None
        } else {
            before.get(other)
        }
    &&& !shown_elsewhere(reply(d, 0), reply(d, 1), here, set)
    &&& {
        ||| known.contains(set)
        ||| forall|i: int|
            0 <= i < known.len() ==> shown_elsewhere(
                reply(d, 0),
                reply(d, 1),
                here,
                #[trigger] known[i],
            )
    }
}

/// On a monitor that is assigned no set, a key reaches its workspace of a set
/// that is free, which the monitor is assigned from then on.
pub proof fn law_new_monitor_is_assigned_a_free_set(d: Dialogue, here: Output, key: char)
    requires
        d.answered(),
        assigned_in(reply(d, 0), reply(d, 1), here, None),
        obey_program(Intent::Switch { key })(d).1 is Ok,
    ensures
        ({
            let e = obey_program(Intent::Switch { key })(d).0;
            exists|set: Seq<char>, known: Seq<Seq<char>>, before: TextMap, after: TextMap|
                {
                    &&& #[trigger] assigns_a_free_set(d, e, here, set, known, before, after)
                    &&& e.asked.last() == Ask::Run("workspace \""@ + key_name(key, set) + "\""@)
                }
        }),
{
    let e = obey_program(Intent::Switch { key })(d).0;
    let (m, r) = ensure_set_program()(d);
    let set = r->Ok_0;
    lemma_ensure_set_steady();
    lemma_grows(ensure_set_program(), d);
    let (l, rl) = load_program()(d);
    let display = rl->Ok_0;
    let known = sets_in(reply(d, 2))->0;
    let before = display.shown;
    assert(l == looked_at(d));
    assert(reply(l, 0) == reply(d, 2));
    if let Reply::Outputs(outputs) = reply(d, 0) {
        lemma_here(outputs@, here);
        let monitor = focused_monitor(display.monitors)->0;
        let connected = ids_of(display.monitors);
        lemma_claimed(display, monitor, l, set);
        let after = assigned(before, monitor.id, set);
        lemma_claimed_start(l, m, display, set);
        assert(set == resolved(before, id_of(here), connected, known));
        law_new_monitor_is_given_the_first_set_not_taken(before, id_of(here), connected, known);
        if shown_elsewhere(reply(d, 0), reply(d, 1), here, set) {
            lemma_elsewhere_taken(outputs@, here, before, set);
        }
        if !known.contains(set) {
            assert forall|i: int| 0 <= i < known.len() implies shown_elsewhere(
                reply(d, 0),
                reply(d, 1),
                here,
                #[trigger] known[i],
            ) by {
                assert(taken(before, id_of(here), connected, known[i]));
                lemma_taken_elsewhere(outputs@, here, before, known[i]);
            }
        }
        assert forall|other: Seq<char>| other != id_of(here) implies #[trigger] after.get(other)
            == if before.get(other) == Some(set) {
            None
        } else {
            before.get(other)
        } by {
            law_assigned_set_is_shown_on_its_monitor_alone(before, monitor.id, set, other);
        }
        let n = d.asked.len() as int;
        assert(e.asked[n + 2] == m.asked[n + 2]);
        assert(e.asked[n + 3] == m.asked[n + 3]);
        assert(workspace_named(key, set) == key_name(key, set));
        assert(assigns_a_free_set(d, e, here, set, known, before, after));
    }
}

proof fn lemma_claimed_start(d: Dialogue, e: Dialogue, display: Display, set: Seq<char>)
    requires
        claimed(d, e, display, set),
    ensures
        ({
            let n = d.asked.len() as int;
            let id = focused_monitor(display.monitors)->0.id;
            &&& n + 2 <= e.asked.len()
            &&& e.asked[n] == Ask::Read(File::Sets)
            &&& e.asked[n + 1] == Ask::Write(
                File::Assignments,
                object_text(assigned(display.shown, id, set)),
            )
        }),
{
    let here = focused_monitor(display.monitors)->0;
    let known = sets_in(reply(d, 0))->0;
    let requests = seq![
        Ask::Read(File::Sets),
        Ask::Write(File::Assignments, object_text(assigned(display.shown, here.id, set))),
    ];
    let (d1, d2, d3, changed) = choose|
        d1: Dialogue,
        d2: Dialogue,
        d3: Dialogue,
        changed: bool,
    |
        #![trigger used(d1, d2, set), brought(d2, d3, set, here.name, changed)]
        {
            &&& set == resolved(display.shown, here.id, ids_of(display.monitors), known)
            &&& went_on(d, d1, requests)
            &&& reply(d, 1) is Done
            &&& used(d1, d2, set)
            &&& brought(d2, d3, set, here.name, changed)
            &&& if changed && here.visible is Some {
                commanded(d3, e, switch_command(here.visible->0))
            } else {
                e == d3
            }
        };
    lemma_brought_quietly(d2, d3, set, here.name, changed);
    let n = d.asked.len() as int;
    assert(d1.asked[n] == requests[0] && d1.asked[n + 1] == requests[1]);
    assert(d2.asked[n] == d1.asked[n] && d2.asked[n + 1] == d1.asked[n + 1]);
    assert(d3.asked[n] == d2.asked[n] && d3.asked[n + 1] == d2.asked[n + 1]);
}

/// Pinning without a key, where the focused monitor is assigned a set, releases
/// a window that is pinned; any other it pins to the key that reaches the
/// focused workspace. The pins of the other windows stay as they were.
pub proof fn law_pinning_without_a_key_releases_what_is_pinned(d: Dialogue, set: Seq<char>)
    requires
        shows(d, set),
        obey_program(Intent::Pin { key: None })(d).1 is Ok,
    ensures
        ({
            let e = obey_program(Intent::Pin { key: None })(d).0;
            let at = d.asked.len() as int + 3;
            exists|con_id: i64, before: Seq<Pin>, after: Seq<Pin>|
                {
                    &&& #[trigger] stores_pins(e, at, con_id, before, after)
                    &&& if is_pinned(before, con_id) {
                        &&& after == of_others(before, con_id)
                        &&& e.asked.last() == Ask::Notify("Unpinned"@)
                    } else {
                        exists|key: char|
                            {
                                &&& after == #[trigger] of_others(before, con_id).push(
                                    Pin { con_id, key },
                                )
                                &&& reply(d, 2) matches Reply::Tree(tree)
                                &&& focused_workspace(tree) matches Some(node)
                                &&& view_of(node.name) == Some(seq![key, '('] + set + seq![')'])
                            }
                    }
                }
        }),
{
    let e = obey_program(Intent::Pin { key: None })(d).0;
    lemma_shows(d, set);
    let m = looked_at(d);
    let (m1, r1) = tree_program()(m);
    let tree = r1->Ok_0;
    assert(reply(m, 0) == reply(d, 2));
    let con_id = focused_window(tree)->0;
    let (m2, r2) = pins_program()(m1);
    let pins = r2->Ok_0;
    let rest = of_others(pins, con_id);
    let at = d.asked.len() as int + 3;
    assert(unpinned_from(pins, con_id) == rest);
    assert(pinned_windows(pins).contains(con_id) <==> is_pinned(pins, con_id)) by {
        if pinned_windows(pins).contains(con_id) {
            let i = pinned_windows(pins).index_of(con_id);
            assert(pins[i].con_id == con_id);
        }
        if is_pinned(pins, con_id) {
            let i = choose|i: int| 0 <= i < pins.len() && (#[trigger] pins[i]).con_id == con_id;
            assert(pinned_windows(pins)[i] == con_id);
        }
    }
    lemma_of_others(pins, con_id, Pin { con_id, key: 'A' });
    if is_pinned(pins, con_id) {
        assert(e.asked == m2.asked.push(Ask::WritePins(rest)).push(Ask::Notify("Unpinned"@)));
        assert(stores_pins(e, at, con_id, pins, rest));
    } else {
        let key = pin_key(None, tree, set)->0;
        let pin = Pin { con_id, key };
        let after = rest.push(pin);
        lemma_of_others(pins, con_id, pin);
        let s = save_pins_program(after)(m2).0;
        assert(s == once_asked(m2, Ask::WritePins(after)));
        let n = carry_pins_program(set)(s).0;
        lemma_carry_pins_steady(set);
        lemma_grows(carry_pins_program(set), s);
        assert(s.asked[at - 1] == Ask::Tree && s.asked[at] == Ask::ReadPins);
        assert(s.asked[at + 1] == Ask::WritePins(after));
        assert(n.asked.take(s.asked.len() as int) == s.asked);
        assert(e.asked[at - 1] == s.asked[at - 1]);
        assert(e.asked[at] == s.asked[at]);
        assert(e.asked[at + 1] == s.asked[at + 1]);
        lemma_pushed_last(pins, con_id, pin);
        assert(stores_pins(e, at, con_id, pins, after));
        if let Some(node) = focused_workspace(tree) {
            if let Some(name) = node.name {
                law_key_is_the_one_character_before_the_set(name@, set, key);
            }
        }
        assert(after == of_others(pins, con_id).push(Pin { con_id, key }));
    }
}

/// Delivering, once a set has been chosen, sends every window of the focused
/// workspace to the workspace of that set that the key reaches; where the set
/// is frozen, it is added to what is stored there and parked. The choice is
/// forgotten, and the deliver mode left.
pub proof fn law_delivering_takes_every_window_of_the_workspace(
    d: Dialogue,
    key: char,
    set: Seq<char>,
    tree: Node,
    snapshot: Snapshot,
    iced: Seq<Seq<char>>,
)
    requires
        d.answered(),
        obey_program(Intent::Deliver { key })(d).1 is Ok,
        reply(d, 0) matches Reply::Text(text) && trimmed(text@) == set,
        reply(d, 1) == Reply::Tree(tree),
        focused_workspace(tree) matches Some(node) && snapshot_of(node) == Some(snapshot),
        iced_in(reply(d, 2)) == Some(iced),
    ensures
        ({
            let e = obey_program(Intent::Deliver { key })(d).0;
            let n = d.asked.len() as int;
            let to = if iced.contains(set) {
                PARKING_WORKSPACE@
            } else {
                key_name(key, set)
            };
            &&& e.asked.len() >= n + 5
            &&& e.asked[e.asked.len() - 2] == Ask::Remove(File::Pending)
            &&& e.asked[e.asked.len() - 1] == Ask::Run("mode default"@)
            &&& forall|id: i64| #[trigger]
                all_ids(snapshot.tree).contains(id) ==> sent_between(
                    e,
                    n,
                    e.asked.len() as int,
                    id,
                    to,
                )
            &&& iced.contains(set) ==> {
                &&& reply(d, 3) matches Reply::Snapshots(stored)
                &&& e.asked[n + 4] == Ask::WriteIce(
                    set + ".json"@,
                    spliced(shots(stored@), key_name(key, set), snapshot.layout, snapshot.tree),
                )
            }
        }),
{
    let e = obey_program(Intent::Deliver { key })(d).0;
    let n = d.asked.len() as int;
    let ids = all_ids(snapshot.tree);
    let workspace = key_name(key, set);
    assert(workspace_named(key, set) == workspace);
    let (d1, r1) = get_pending_target_program()(d);
    assert(d1 == once_asked(d, Ask::Read(File::Pending)));
    let (d2, r2) = tree_program()(d1);
    assert(reply(d1, 0) == reply(d, 1));
    assert(d2 == once_asked(d1, Ask::Tree));
    assert(reply(d2, 0) == reply(d, 2));
    let d3 = deliver_snapshot_program(snapshot, set, workspace)(d2).0;
    lemma_delivered(snapshot, set, workspace, d2);
    assert(e.asked == d3.asked.push(Ask::Remove(File::Pending)).push(Ask::Run("mode default"@)));
    let to = if iced.contains(set) {
        PARKING_WORKSPACE@
    } else {
        workspace
    };
    let from = if iced.contains(set) {
        n + 5
    } else {
        n + 3
    };
    assert(reply(d2, 1) == reply(d, 3));
    assert forall|i: int| 0 <= i < ids.len() implies e.asked[from + i] == Ask::Run(
        move_command(#[trigger] ids[i], to),
    ) by {
        assert(moves(ids, to)[i] == Ask::Run(move_command(ids[i], to)));
        assert(e.asked[from + i] == d3.asked[from + i]);
        assert(d3.asked[from + i] == moves(ids, to)[i]);
    }
    assert forall|id: i64| #[trigger] ids.contains(id) implies sent_between(
        e,
        n,
        e.asked.len() as int,
        id,
        to,
    ) by {
        let i = from + ids.index_of(id);
        assert(e.asked[i] == Ask::Run(
            "[con_id="@ + integer(id as int) + "]"@ + " move to workspace \""@ + to + "\""@,
        ));
    }
    if iced.contains(set) {
        assert(e.asked[n + 4] == d3.asked[n + 4]);
    }
}

/// Listing the frozen sets prints each by its name, one after another.
pub proof fn law_frozen_sets_are_printed_by_their_names(
    d: Dialogue,
    sets: Seq<Seq<char>>,
    i: int,
)
    requires
        d.answered(),
        obey_program(Intent::ListIced)(d).1 is Ok,
        reply(d, 0) matches Reply::Names(names) && {
            &&& names@.len() == sets.len()
            &&& forall|k: int|
                0 <= k < sets.len() ==> #[trigger] sets[k].len() > 0 && names@[k]@ == sets[k]
                    + ".json"@
        },
        0 <= i < sets.len(),
    ensures
        obey_program(Intent::ListIced)(d).0.asked.len() == d.asked.len() + 1 + sets.len(),
        obey_program(Intent::ListIced)(d).0.asked[d.asked.len() + 1 + i] == Ask::Print(sets[i]),
{
    law_commands_do_what_is_said_of_them(Intent::ListIced, d);
    let iced = iced_in(reply(d, 0))->0;
    assert forall|k: int| 0 <= k < sets.len() implies #[trigger] iced[k] == sets[k] by {
        law_frozen_set_is_listed_by_its_name(sets[k]);
    }
    let e = obey_program(Intent::ListIced)(d).0;
    let m = once_asked(d, Ask::ListIced);
    assert(printed(m, e, iced));
    assert(iced[i] == sets[i]);
    let lines = Seq::new(iced.len(), |k: int| Ask::Print(iced[k]));
    assert(e.asked == m.asked + lines);
}

/// Picking a set, where the focused monitor is assigned one, stores it as the
/// first of the known sets, unless it is that already; the others keep their
/// order.
pub proof fn law_set_picked_comes_first(
    d: Dialogue,
    current: Seq<char>,
    set: Seq<char>,
    known: Seq<Seq<char>>,
)
    requires
        shows(d, current),
        obey_program(Intent::Show { name: set })(d).1 is Ok,
        sets_in(reply(d, 4)) == Some(known),
    ensures
        ({
            let e = obey_program(Intent::Show { name: set })(d).0;
            let n = d.asked.len() as int;
            &&& e.asked.len() > n + 4
            &&& e.asked[n + 4] == Ask::Read(File::Sets)
            &&& known.len() == 0 || known[0] != set ==> {
                &&& e.asked.len() > n + 5
                &&& e.asked[n + 5] == Ask::Write(
                    File::Sets,
                    list_text(seq![set] + known.filter(besides(set))),
                )
            }
        }),
{
    let e = obey_program(Intent::Show { name: set })(d).0;
    let n = d.asked.len() as int;
    lemma_shows(d, current);
    let d1 = looked_at(d);
    let (d2, r2) = load_program()(d1);
    let display = r2->Ok_0;
    let here = focused_monitor(display.monitors)->0;
    assert(d2 == looked_at(d1));
    assert(reply(d2, 0) == reply(d, 4));
    let d3 = touch_set_program(set)(d2).0;
    lemma_used(d2, d3, set);
    lemma_touch_set_steady(set);
    lemma_grows(touch_set_program(set), d2);
    let plan = planned(display.shown, here.id, current, set, ids_of(display.monitors));
    let (d4, r4) = carry_out_program(display, here, set, plan)(d3);
    lemma_carry_out_steady(display, here, set, plan);
    lemma_grows(carry_out_program(display, here, set, plan), d3);
    lemma_carry_pins_steady(set);
    lemma_grows(carry_pins_program(set), d4);
    assert(besides(set) =~= (|other: Seq<char>| other != set));
    assert(e.asked.take(d4.asked.len() as int) == d4.asked);
    assert(d4.asked.take(d3.asked.len() as int) == d3.asked);
    assert(d3.asked[n + 4] == Ask::Read(File::Sets));
    assert(e.asked[n + 4] == d4.asked[n + 4]);
    assert(d4.asked[n + 4] == d3.asked[n + 4]);
    if known.len() == 0 || known[0] != set {
        assert(e.asked[n + 5] == d4.asked[n + 5]);
        assert(d4.asked[n + 5] == d3.asked[n + 5]);
    }
}

} // verus!
