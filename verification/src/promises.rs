//! What a user may rely on where sets are picked and thawed: a set is found
//! again where it was left, its workspaces as they were, and no monitor but
//! those concerned loses its set.

use crate::account::{
    all_commanded, all_placed, assignments_in, brought, carried_along, commanded, exchanged, froze,
    iced_in, last_in, law_carrying_places_every_open_pinned_window, lemma_looked, lemma_replaced,
    lemma_swapped, lemma_used, once_asked, pins_in, placed, recalled, remembered, replaced,
    replaced_so, reply, swapped, thawed_if, used, went_on, Way,
};
use crate::assignments::{
    assigned, holds, law_assigned_set_is_shown_on_its_monitor_alone,
    law_plan_follows_who_shows_the_set, planned, taken, Planned,
};
use crate::carrying::lemma_grows;
use crate::change::{all_to, carry_out_program, change_set_program, elsewhere, ensure_set_program};
use crate::dialogue::{Ask, Dialogue, File, Output, Reply};
use crate::freeze::thaw_set_program;
use crate::json::object_text;
use crate::parking::{is_move, moves, sent, went};
use crate::pins::Pin;
use crate::resume::{lemma_carry_out_steady, lemma_touch_set_steady};
use crate::screens::{
    connected_monitors, drives, focused_monitor, has_the_focus, ids_of,
    law_focused_monitor_is_on_the_output_with_the_focus, law_monitor_is_found_by_its_identifier,
    law_monitors_are_those_of_the_active_outputs, load_program, monitor_by_id, monitor_on, Display,
    Screen,
};
use crate::search::{first, lemma_first};
use crate::sets::ice_name;
use crate::snapshot::{all_ids, shots, snapshot_ids, Snapshot};
use crate::state::touch_set_program;
use crate::string_map::TextMap;
use crate::sway::{lay_out_command, move_command, show_command};
use crate::text::{integer, view_of};
use crate::thawing::{
    all_reopened, all_steps, brings_back, brought_back,
    law_thawing_reopens_every_workspace_as_it_was, layouts_of, reopened, stepped, thawed,
};
use crate::tree::live_ids;
use crate::workspace::{belongs, law_set_opens_at_what_is_inherited_or_left, visible_or_home_named};
use vstd::prelude::*;

verus! {

/// What a monitor is known by, whatever connector it is on.
pub open spec fn id_of(output: Output) -> Seq<char> {
    output.make@ + seq![' '] + output.model@ + seq![' '] + output.serial@
}

/// Whether a reply tells that an output has the focus.
pub open spec fn has_focus_in(reply: Reply, here: Output) -> bool {
    reply matches Reply::Outputs(outputs) && has_the_focus(outputs@, here)
}

/// Whether two replies tell that a connected monitor other than `here` shows a
/// set.
pub open spec fn shown_elsewhere(
    outputs: Reply,
    assignments: Reply,
    here: Output,
    set: Seq<char>,
) -> bool {
    &&& outputs matches Reply::Outputs(outputs)
    &&& assignments_in(assignments) matches Some(shown)
    &&& exists|i: int|
        {
            &&& 0 <= i < outputs@.len()
            &&& (#[trigger] outputs@[i]).active
            &&& id_of(outputs@[i]) != id_of(here)
            &&& shown.get(id_of(outputs@[i])) == Some(set)
        }
}

/// Whether two replies tell which set the monitor on an output is assigned.
pub open spec fn assigned_in(
    outputs: Reply,
    assignments: Reply,
    here: Output,
    set: Option<Seq<char>>,
) -> bool {
    &&& has_focus_in(outputs, here)
    &&& assignments_in(assignments) matches Some(shown)
    &&& shown.get(id_of(here)) == set
}

/// Whether a request stores where the sets were left.
pub open spec fn stores_last(request: Ask) -> bool {
    request matches Ask::Write(File::Last, _)
}

/// Whether a request is about windows alone: for the tree or the pins, or a
/// command on a single window.
pub open spec fn concerns_a_window(request: Ask) -> bool {
    match request {
        Ask::Tree => true,
        Ask::ReadPins => true,
        Ask::WritePins(_) => true,
        Ask::Run(command) => command.len() > 0 && command[0] == '[',
        _ => false,
    }
}

/// Whether the monitor with the focus comes from one set to another that no
/// monitor shows: the first two replies, and the two after them, tell so.
pub open spec fn comes_to_a_hidden_set(
    d: Dialogue,
    here: Output,
    old_set: Seq<char>,
    set: Seq<char>,
) -> bool {
    &&& d.answered()
    &&& old_set != set
    &&& exists|before: Output| #[trigger]
        assigned_in(reply(d, 0), reply(d, 1), before, Some(old_set))
    &&& has_focus_in(reply(d, 2), here)
    &&& !shown_elsewhere(reply(d, 2), reply(d, 3), here, set)
}

/// The output with the focus drives the focused monitor.
pub proof fn lemma_here(outputs: Seq<Output>, here: Output)
    requires
        has_the_focus(outputs, here),
    ensures
        focused_monitor(connected_monitors(outputs)) is Some,
        drives(here, focused_monitor(connected_monitors(outputs))->0),
        focused_monitor(connected_monitors(outputs))->0.id == id_of(here),
{
    law_focused_monitor_is_on_the_output_with_the_focus(outputs);
    let i = choose|i: int|
        {
            &&& 0 <= i < outputs.len()
            &&& #[trigger] outputs[i] == here
            &&& here.active
            &&& here.focused
            &&& forall|j: int|
                0 <= j < i ==> !((#[trigger] outputs[j]).active && outputs[j].focused)
        };
    let monitor = focused_monitor(connected_monitors(outputs));
    if monitor is None {
        assert(!(outputs[i].active && outputs[i].focused));
    }
    let other = choose|other: Output| #[trigger]
        has_the_focus(outputs, other) && drives(other, monitor->0);
    let k = choose|k: int|
        {
            &&& 0 <= k < outputs.len()
            &&& #[trigger] outputs[k] == other
            &&& other.active
            &&& other.focused
            &&& forall|j: int|
                0 <= j < k ==> !((#[trigger] outputs[j]).active && outputs[j].focused)
        };
    assert(i == k) by {
        if i < k {
            assert(!(outputs[i].active && outputs[i].focused));
        }
        if k < i {
            assert(!(outputs[k].active && outputs[k].focused));
        }
    }
}

/// A connected monitor is one that an active output drives.
pub proof fn lemma_taken_elsewhere(
    outputs: Seq<Output>,
    here: Output,
    shown: TextMap,
    set: Seq<char>,
)
    requires
        taken(shown, id_of(here), ids_of(connected_monitors(outputs)), set),
    ensures
        exists|i: int|
            {
                &&& 0 <= i < outputs.len()
                &&& (#[trigger] outputs[i]).active
                &&& id_of(outputs[i]) != id_of(here)
                &&& shown.get(id_of(outputs[i])) == Some(set)
            },
{
    let monitors = connected_monitors(outputs);
    let ids = ids_of(monitors);
    let f = |o: Output| o.active;
    let active = outputs.filter(f);
    law_monitors_are_those_of_the_active_outputs(outputs);
    law_monitor_is_found_by_its_identifier(monitors, set);
    assert(outputs.filter(|o: Output| o.active) == active);
    let k = choose|k: int|
        {
            &&& 0 <= k < ids.len()
            &&& #[trigger] ids[k] != id_of(here)
            &&& shown.get(ids[k]) == Some(set)
        };
    assert(ids[k] == monitors[k].id);
    assert(drives(active[k], monitors[k]));
    outputs.lemma_filter_pred(f, k);
    assert(active.contains(active[k]));
    outputs.lemma_filter_contains_rev(f, active[k]);
    let i = outputs.index_of(active[k]);
    assert(outputs[i].active);
}

/// A monitor that an active output drives is connected.
pub proof fn lemma_elsewhere_taken(
    outputs: Seq<Output>,
    here: Output,
    shown: TextMap,
    set: Seq<char>,
)
    requires
        exists|i: int|
            {
                &&& 0 <= i < outputs.len()
                &&& (#[trigger] outputs[i]).active
                &&& id_of(outputs[i]) != id_of(here)
                &&& shown.get(id_of(outputs[i])) == Some(set)
            },
    ensures
        taken(shown, id_of(here), ids_of(connected_monitors(outputs)), set),
{
    let monitors = connected_monitors(outputs);
    let ids = ids_of(monitors);
    let f = |o: Output| o.active;
    let active = outputs.filter(f);
    law_monitors_are_those_of_the_active_outputs(outputs);
    law_monitor_is_found_by_its_identifier(monitors, set);
    assert(outputs.filter(|o: Output| o.active) == active);
    let i = choose|i: int|
        {
            &&& 0 <= i < outputs.len()
            &&& (#[trigger] outputs[i]).active
            &&& id_of(outputs[i]) != id_of(here)
            &&& shown.get(id_of(outputs[i])) == Some(set)
        };
    outputs.lemma_filter_contains(f, i);
    let k = active.index_of(outputs[i]);
    assert(drives(active[k], monitors[k]));
    assert(ids[k] == monitors[k].id);
}

/// Whether a dialogue went on from one to another, and nothing asked in
/// between stores where the sets were left.
pub open spec fn went_on_quietly(d: Dialogue, e: Dialogue) -> bool {
    &&& e.replies == d.replies
    &&& d.asked.len() <= e.asked.len()
    &&& forall|i: int| 0 <= i < d.asked.len() ==> #[trigger] e.asked[i] == d.asked[i]
    &&& forall|i: int| d.asked.len() <= i < e.asked.len() ==> !stores_last(#[trigger] e.asked[i])
}

proof fn lemma_froze_quietly(d: Dialogue, e: Dialogue, set: Seq<char>, count: nat)
    requires
        froze(d, e, set, count),
    ensures
        went_on_quietly(d, e),
{
}

proof fn lemma_reopened_quietly(d: Dialogue, e: Dialogue, snapshot: Snapshot)
    requires
        reopened(d, e, snapshot),
    ensures
        went_on_quietly(d, e),
{
    let m = choose|m: Dialogue|
        {
            &&& #[trigger] brought_back(
                d,
                m,
                snapshot.tree,
                layouts_of(snapshot.tree),
                snapshot.name,
            )
            &&& went_on(
                m,
                e,
                seq![Ask::Run(lay_out_command(snapshot.name, snapshot.layout))],
            )
        };
    let n = d.asked.len() as int;
    assert forall|i: int| n <= i < e.asked.len() implies !stores_last(#[trigger] e.asked[i]) by {
        if i < m.asked.len() {
            assert(brings_back(m, n, i, snapshot.tree, layouts_of(snapshot.tree), snapshot.name));
            assert(e.asked[i] == m.asked[i]);
        }
    }
}

proof fn lemma_thawed_quietly(
    d: Dialogue,
    e: Dialogue,
    set: Seq<char>,
    restored: nat,
    total: nat,
)
    requires
        thawed(d, e, set, restored, total),
    ensures
        went_on_quietly(d, e),
{
    let read = once_asked(d, Ask::ReadIce(ice_name(set)));
    if let Reply::Snapshots(stored) = reply(d, 0) {
        let snapshots = shots(stored@);
        let (m, stops) = choose|m: Dialogue, stops: Seq<Dialogue>|
            {
                &&& #[trigger] all_reopened(read, m, snapshots, stops)
                &&& went_on(m, e, seq![Ask::RemoveIce(ice_name(set))])
                &&& reply(m, 0) is Done
                &&& restored == went(m, d.asked.len() as int + 1, m.asked.len() as int)
                &&& total == sent(m, d.asked.len() as int + 1, m.asked.len() as int)
                &&& total == snapshot_ids(snapshots).len()
            };
        lemma_all_reopened_quietly(read, m, snapshots, stops, 0, snapshots.len() as int);
    }
}

proof fn lemma_all_reopened_quietly(
    d: Dialogue,
    e: Dialogue,
    snapshots: Seq<Snapshot>,
    stops: Seq<Dialogue>,
    from: int,
    to: int,
)
    requires
        all_reopened(d, e, snapshots, stops),
        0 <= from <= to <= snapshots.len(),
    ensures
        went_on_quietly(stops[from], stops[to]),
    decreases to,
{
    if from < to {
        let j = to - 1;
        lemma_all_reopened_quietly(d, e, snapshots, stops, from, j);
        assert(reopened(stops[j], stops[j + 1], snapshots[j]));
        lemma_reopened_quietly(stops[j], stops[to], snapshots[j]);
        lemma_quietly_on(stops[from], stops[j], stops[to]);
    }
}

proof fn lemma_quietly_on(d: Dialogue, m: Dialogue, e: Dialogue)
    requires
        went_on_quietly(d, m),
        went_on_quietly(m, e),
    ensures
        went_on_quietly(d, e),
{
    assert forall|i: int| d.asked.len() <= i < e.asked.len() implies !stores_last(
        #[trigger] e.asked[i],
    ) by {
        if i < m.asked.len() {
            assert(e.asked[i] == m.asked[i]);
        }
    }
    assert forall|i: int| 0 <= i < d.asked.len() implies #[trigger] e.asked[i] == d.asked[i] by {
        assert(m.asked[i] == d.asked[i]);
    }
}

proof fn lemma_all_commanded_quietly(d: Dialogue, e: Dialogue, commands: Seq<Seq<char>>)
    requires
        all_commanded(d, e, commands),
    ensures
        went_on_quietly(d, e),
{
}

/// Bringing a set to an output stores nothing of where the sets were left.
pub proof fn lemma_brought_quietly(
    d: Dialogue,
    e: Dialogue,
    set: Seq<char>,
    output: Seq<char>,
    changed: bool,
)
    requires
        brought(d, e, set, output, changed),
    ensures
        went_on_quietly(d, e),
{
    let iced = iced_in(reply(d, 0))->0;
    let (m, commands) = choose|m: Dialogue, commands: Seq<Seq<char>>|
        {
            &&& thawed_if(d, m, set, iced.contains(set))
            &&& reply(m, 0) matches Reply::Workspaces(workspaces)
            &&& commands == all_to(workspaces@.filter(elsewhere(set, output)), output)
            &&& #[trigger] all_commanded(once_asked(m, Ask::Workspaces), e, commands)
            &&& changed == (iced.contains(set) || commands.len() > 0)
        };
    if iced.contains(set) {
        let start = once_asked(d, Ask::ListIced);
        let (restored, total) = choose|restored: nat, total: nat| #[trigger]
            thawed(start, m, set, restored, total);
        lemma_thawed_quietly(start, m, set, restored, total);
        lemma_quietly_on(d, start, m);
    }
    let last = once_asked(m, Ask::Workspaces);
    lemma_all_commanded_quietly(last, e, commands);
    lemma_quietly_on(d, m, last);
    lemma_quietly_on(d, last, e);
}

/// Whether only windows were carried, from one dialogue to another.
pub open spec fn only_carried(d: Dialogue, e: Dialogue) -> bool {
    &&& went_on_quietly(d, e)
    &&& forall|i: int|
        d.asked.len() <= i < e.asked.len() ==> concerns_a_window(#[trigger] e.asked[i])
}

proof fn lemma_only_carried_on(d: Dialogue, m: Dialogue, e: Dialogue)
    requires
        only_carried(d, m),
        only_carried(m, e),
    ensures
        only_carried(d, e),
{
    lemma_quietly_on(d, m, e);
    assert forall|i: int| d.asked.len() <= i < e.asked.len() implies concerns_a_window(
        #[trigger] e.asked[i],
    ) by {
        if i < m.asked.len() {
            assert(e.asked[i] == m.asked[i]);
        }
    }
}

proof fn lemma_placed_carries(d: Dialogue, e: Dialogue, pin: Pin, set: Seq<char>)
    requires
        placed(d, e, pin, set),
    ensures
        only_carried(d, e),
{
    reveal_strlit("[con_id=");
}

proof fn lemma_all_placed_carries(
    d: Dialogue,
    e: Dialogue,
    pins: Seq<Pin>,
    set: Seq<char>,
    stops: Seq<Dialogue>,
    k: int,
)
    requires
        all_placed(d, e, pins, set, stops),
        0 <= k <= pins.len(),
    ensures
        only_carried(d, stops[k]),
    decreases k,
{
    if k > 0 {
        let j = k - 1;
        lemma_all_placed_carries(d, e, pins, set, stops, j);
        assert(placed(stops[j], stops[j + 1], pins[pins.len() - 1 - j], set));
        lemma_placed_carries(stops[j], stops[k], pins[pins.len() - 1 - j], set);
        lemma_only_carried_on(d, stops[j], stops[k]);
    }
}

proof fn lemma_carried_along_carries(d: Dialogue, e: Dialogue, set: Seq<char>)
    requires
        carried_along(d, e, set),
    ensures
        only_carried(d, e),
{
    if let Reply::Tree(tree) = reply(d, 1) {
        let pins = pins_in(reply(d, 0))->0;
        let (m, alive, stops) = choose|m: Dialogue, alive: Seq<Pin>, stops: Seq<Dialogue>|
            {
                &&& alive == pins.filter(|pin: Pin| live_ids(tree).contains(pin.con_id))
                &&& if alive.len() == pins.len() {
                    went_on(d, m, seq![Ask::ReadPins, Ask::Tree])
                } else {
                    &&& went_on(d, m, seq![Ask::ReadPins, Ask::Tree, Ask::WritePins(alive)])
                    &&& reply(d, 2) is Done
                }
                &&& #[trigger] all_placed(m, e, alive, set, stops)
            };
        lemma_all_placed_carries(m, e, alive, set, stops, alive.len() as int);
        lemma_only_carried_on(d, m, e);
    }
}

/// Coming to a set that no monitor shows puts it in the place of the old one.
proof fn lemma_comes_in_place(
    d: Dialogue,
    here: Output,
    old_set: Seq<char>,
    set: Seq<char>,
) -> (r: (Dialogue, Dialogue, Display, Screen))
    requires
        comes_to_a_hidden_set(d, here, old_set, set),
        change_set_program(set)(d).1 is Ok,
    ensures
        ({
            let (d3, d4, display, monitor) = r;
            &&& drives(here, monitor)
            &&& assignments_in(reply(d, 3)) == Some(display.shown)
            &&& replaced(d3, d4, display, monitor, old_set, set)
            &&& carried_along(d4, change_set_program(set)(d).0, set)
            &&& d3.replies == d.replies
            &&& d.asked.len() <= d3.asked.len()
        }),
{
    let e = change_set_program(set)(d).0;
    let (m, r0) = load_program()(d);
    let before = r0->Ok_0;
    lemma_looked(d, m, before);
    let other = choose|other: Output| #[trigger]
        assigned_in(reply(d, 0), reply(d, 1), other, Some(old_set));
    if let Reply::Outputs(outputs) = reply(d, 0) {
        lemma_here(outputs@, other);
    }
    let (d1, r1) = ensure_set_program()(d);
    assert(d1 == m && r1->Ok_0 == old_set);
    assert(reply(d1, 0) == reply(d, 2) && reply(d1, 1) == reply(d, 3));
    let (d2, r2) = load_program()(d1);
    let display = r2->Ok_0;
    lemma_looked(d1, d2, display);
    let monitor = focused_monitor(display.monitors)->0;
    let ids = ids_of(display.monitors);
    if let Reply::Outputs(outputs) = reply(d, 2) {
        lemma_here(outputs@, here);
        if taken(display.shown, id_of(here), ids, set) {
            lemma_taken_elsewhere(outputs@, here, display.shown, set);
        }
    }
    let d3 = touch_set_program(set)(d2).0;
    lemma_touch_set_steady(set);
    lemma_grows(touch_set_program(set), d2);
    let plan = planned(display.shown, monitor.id, old_set, set, ids);
    law_plan_follows_who_shows_the_set(display.shown, monitor.id, old_set, set, ids);
    if let Planned::Swap { monitor: there, .. } = plan {
        let i = choose|i: int|
            {
                &&& 0 <= i < ids.len()
                &&& #[trigger] ids[i] == there
                &&& forall|j: int|
                    0 <= j < i && #[trigger] ids[j] != monitor.id ==> display.shown.get(ids[j])
                        != Some(set)
            };
        assert(taken(display.shown, id_of(here), ids, set));
    }
    assert(plan == Planned::Replace { old: old_set });
    let d4 = carry_out_program(display, monitor, set, plan)(d3).0;
    lemma_carry_out_steady(display, monitor, set, plan);
    lemma_grows(carry_out_program(display, monitor, set, plan), d3);
    lemma_replaced(display, monitor, old_set, set, d3);
    law_carrying_places_every_open_pinned_window(set, d4);
    (d3, d4, display, monitor)
}

/// Whether, at the end of a dialogue, what is stored of where the sets were
/// left is the map that was read with one set at a workspace, and the same as
/// read for the others.
pub open spec fn leaves_at(e: Dialogue, from: int, set: Seq<char>, workspace: Seq<char>) -> bool {
    exists|k: int, last: TextMap|
        {
            &&& from <= k < e.asked.len() - 1
            &&& e.asked[k] == Ask::Read(File::Last)
            &&& last_in(e.replies[k]) == Some(last)
            &&& #[trigger] e.asked[k + 1] == Ask::Write(
                File::Last,
                #[trigger] object_text(last.insert(set, workspace)),
            )
            &&& forall|i: int| k + 1 < i < e.asked.len() ==> !stores_last(#[trigger] e.asked[i])
        }
}

/// Coming to a set that no monitor shows stores where the old one was left:
/// at the workspace that was visible, if that is one of it. What was stored
/// for the other sets stays.
pub proof fn law_set_left_is_stored_where_it_was_left(
    d: Dialogue,
    here: Output,
    old_set: Seq<char>,
    set: Seq<char>,
    workspace: Seq<char>,
)
    requires
        comes_to_a_hidden_set(d, here, old_set, set),
        view_of(here.current_workspace) == Some(workspace),
        belongs(workspace, old_set),
        change_set_program(set)(d).1 is Ok,
    ensures
        leaves_at(change_set_program(set)(d).0, d.asked.len() as int, old_set, workspace),
{
    let e = change_set_program(set)(d).0;
    let (start, end, display, monitor) = lemma_comes_in_place(d, here, old_set, set);
    assert(monitor.visible == Some(workspace));
    let way = choose|way: Way| #[trigger]
        replaced_so(start, end, display, monitor, old_set, set, way);
    let (d1, d2, d3) = (way.remembered, way.frozen, way.assigned);
    let (d4, d5, left) = (way.recalled, way.brought, way.left);
    lemma_froze_quietly(d1, d2, old_set, way.count);
    lemma_quietly_on(d1, d2, d3);
    lemma_quietly_on(d1, d3, d4);
    lemma_brought_quietly(d4, d5, set, monitor.name, way.changed);
    lemma_quietly_on(d1, d4, d5);
    lemma_quietly_on(d1, d5, end);
    lemma_carried_along_carries(end, e, set);
    lemma_quietly_on(d1, end, e);
    let k = start.asked.len() as int;
    let last = last_in(reply(start, 0))->0;
    assert(d1.asked[k] == Ask::Read(File::Last));
    assert(e.asked[k] == d1.asked[k]);
    assert(d1.asked[k + 1] == Ask::Write(File::Last, object_text(last.insert(old_set, workspace))));
    assert(e.asked[k + 1] == d1.asked[k + 1]);
    assert(e.replies[k] == reply(start, 0));
    assert(last_in(e.replies[k]) == Some(last));
}

/// Whether every reply that told where the sets were left told this of one.
pub open spec fn tells_left(
    e: Dialogue,
    from: int,
    set: Seq<char>,
    left: Option<Seq<char>>,
) -> bool {
    forall|k: int|
        {
            &&& from <= k < e.asked.len()
            &&& #[trigger] e.asked[k] == Ask::Read(File::Last)
        } ==> match last_in(e.replies[k]) {
            Some(last) => last.get(set) == left,
            None => false,
        }
}

/// Whether, at the end of a dialogue, an output shows a workspace: it was
/// shown there, and after that only windows were carried.
pub open spec fn ends_showing(
    e: Dialogue,
    from: int,
    output: Seq<char>,
    workspace: Seq<char>,
) -> bool {
    exists|j: int|
        {
            &&& from <= j < e.asked.len()
            &&& #[trigger] e.asked[j] == Ask::Run(
                "focus output \""@ + output + "\"; workspace \""@ + workspace + "\""@,
            )
            &&& forall|i: int| j < i < e.asked.len() ==> concerns_a_window(#[trigger] e.asked[i])
        }
}

/// Coming to a set that no monitor shows, from a workspace that is not one of
/// it, ends at the workspace where the set was left; where it was never left,
/// or not at a workspace of it, at its `A`.
pub proof fn law_set_is_shown_where_it_was_left(
    d: Dialogue,
    here: Output,
    old_set: Seq<char>,
    set: Seq<char>,
    left: Option<Seq<char>>,
)
    requires
        comes_to_a_hidden_set(d, here, old_set, set),
        match view_of(here.current_workspace) {
            Some(visible) => !belongs(visible, set),
            None => true,
        },
        tells_left(change_set_program(set)(d).0, d.asked.len() as int, set, left),
        change_set_program(set)(d).1 is Ok,
    ensures
        ends_showing(
            change_set_program(set)(d).0,
            d.asked.len() as int,
            here.name@,
            if left is Some && belongs(left->0, set) {
                left->0
            } else {
                "A("@ + set + ")"@
            },
        ),
{
    let reopened = left;
    let home = "A("@ + set + ")"@;
    reveal_strlit("A(");
    reveal_strlit(")");
    assert("A("@ == seq!['A', '(']);
    assert(")"@ == seq![')']);
    let e = change_set_program(set)(d).0;
    let (start, end, display, monitor) = lemma_comes_in_place(d, here, old_set, set);
    let way = choose|way: Way| #[trigger]
        replaced_so(start, end, display, monitor, old_set, set, way);
    let (d1, d2, d3) = (way.remembered, way.frozen, way.assigned);
    let (d4, d5, left) = (way.recalled, way.brought, way.left);
    lemma_brought_quietly(d4, d5, set, monitor.name, way.changed);
    lemma_quietly_on(d4, d5, end);
    lemma_carried_along_carries(end, e, set);
    lemma_quietly_on(d4, end, e);
    lemma_froze_quietly(d1, d2, old_set, way.count);
    let k = d3.asked.len() as int;
    assert(d4.asked[k] == Ask::Read(File::Last));
    assert(e.asked[k] == d4.asked[k]);
    assert(e.replies[k] == reply(d3, 0));
    assert(left == reopened);
    law_set_opens_at_what_is_inherited_or_left(monitor.visible, left, set);
    let workspace = visible_or_home_named(monitor.visible, left, set);
    let show = show_command(monitor.name, workspace);
    let j = d5.asked.len() as int;
    assert(end.asked[j] == Ask::Run(show));
    assert(e.asked[j] == end.asked[j]);
}

/// Whether what is stored of where the sets were left is this, at the end of a
/// dialogue that stored it.
pub open spec fn leaves(e: Dialogue, from: int, last: TextMap) -> bool {
    exists|k: int|
        {
            &&& from <= k < e.asked.len()
            &&& #[trigger] e.asked[k] == Ask::Write(File::Last, object_text(last))
            &&& forall|i: int| k < i < e.asked.len() ==> !stores_last(#[trigger] e.asked[i])
        }
}

/// Leaving a set for another and later coming back to it ends at the workspace
/// where it was left, as long as what the leaving stored is told then.
pub proof fn law_coming_back_to_a_set_shows_it_where_it_was_left(
    leaving: Dialogue,
    here: Output,
    set: Seq<char>,
    coming: Dialogue,
    there: Output,
    other: Seq<char>,
    next: Seq<char>,
    workspace: Seq<char>,
)
    requires
        comes_to_a_hidden_set(leaving, here, set, next),
        view_of(here.current_workspace) == Some(workspace),
        belongs(workspace, set),
        change_set_program(next)(leaving).1 is Ok,
        comes_to_a_hidden_set(coming, there, other, set),
        match view_of(there.current_workspace) {
            Some(visible) => !belongs(visible, set),
            None => true,
        },
        change_set_program(set)(coming).1 is Ok,
        forall|last: TextMap| #[trigger]
            leaves(change_set_program(next)(leaving).0, leaving.asked.len() as int, last)
                ==> tells_left(
                change_set_program(set)(coming).0,
                coming.asked.len() as int,
                set,
                last.get(set),
            ),
    ensures
        ends_showing(
            change_set_program(set)(coming).0,
            coming.asked.len() as int,
            there.name@,
            workspace,
        ),
{
    let e = change_set_program(next)(leaving).0;
    let n = leaving.asked.len() as int;
    law_set_left_is_stored_where_it_was_left(leaving, here, set, next, workspace);
    let (k, last) = choose|k: int, last: TextMap|
        {
            &&& n <= k < e.asked.len() - 1
            &&& e.asked[k] == Ask::Read(File::Last)
            &&& last_in(e.replies[k]) == Some(last)
            &&& #[trigger] e.asked[k + 1] == Ask::Write(
                File::Last,
                #[trigger] object_text(last.insert(set, workspace)),
            )
            &&& forall|i: int| k + 1 < i < e.asked.len() ==> !stores_last(#[trigger] e.asked[i])
        };
    let stored = last.insert(set, workspace);
    let j = k + 1;
    assert(e.asked[j] == Ask::Write(File::Last, object_text(stored)));
    assert(leaves(e, n, stored));
    law_set_is_shown_where_it_was_left(coming, there, other, set, Some(workspace));
}

/// The command that shows a workspace and lays it out.
pub open spec fn laying_out(workspace: Seq<char>, layout: Seq<char>) -> Ask {
    Ask::Run("workspace \""@ + workspace + "\", layout "@ + layout)
}

/// Whether a request is such a command.
pub open spec fn lays_out(request: Ask) -> bool {
    exists|workspace: Seq<char>, layout: Seq<char>|
        request == #[trigger] laying_out(workspace, layout)
}

/// Whether a window was sent to a workspace between two requests.
pub open spec fn sent_between(
    e: Dialogue,
    from: int,
    to: int,
    id: i64,
    workspace: Seq<char>,
) -> bool {
    exists|i: int|
        from <= i < to && #[trigger] e.asked[i] == Ask::Run(
            "[con_id="@ + integer(id as int) + "]"@ + " move to workspace \""@ + workspace + "\""@,
        )
}

/// Thawing a set lays out every workspace that is stored of it as that one is
/// stored, each at its request of `at`, once its windows have been sent back;
/// and it lays out no other workspace, nor one of them in any other way.
pub proof fn law_thawed_workspaces_get_their_own_layouts(
    set: Seq<char>,
    d: Dialogue,
    snapshots: Seq<Snapshot>,
) -> (at: Seq<int>)
    requires
        d.answered(),
        thaw_set_program(set)(d).1 is Ok,
        reply(d, 0) matches Reply::Snapshots(stored) && snapshots == shots(stored@),
    ensures
        ({
            let e = thaw_set_program(set)(d).0;
            &&& at.len() == snapshots.len()
            &&& forall|k: int|
                0 <= k < at.len() ==> {
                    &&& d.asked.len() < #[trigger] at[k] < e.asked.len()
                    &&& e.asked[at[k]] == laying_out(snapshots[k].name, snapshots[k].layout)
                }
            &&& forall|j: int, k: int| 0 <= j < k < at.len() ==> #[trigger] at[j] < #[trigger] at[k]
            &&& forall|k: int, id: i64|
                0 <= k < at.len() && #[trigger] all_ids(snapshots[k].tree).contains(id)
                    ==> sent_between(
                    e,
                    if k == 0 {
                        d.asked.len() as int
                    } else {
                        at[k - 1]
                    },
                    at[k],
                    id,
                    snapshots[k].name,
                )
            &&& forall|i: int|
                d.asked.len() <= i < e.asked.len() && lays_out(#[trigger] e.asked[i])
                    ==> at.contains(i)
        }),
{
    let e = thaw_set_program(set)(d).0;
    let (restored, total) = thaw_set_program(set)(d).1->Ok_0;
    law_thawing_reopens_every_workspace_as_it_was(set, d, restored, total);
    let read = once_asked(d, Ask::ReadIce(ice_name(set)));
    let (m, stops) = choose|m: Dialogue, stops: Seq<Dialogue>|
        {
            &&& #[trigger] all_reopened(read, m, snapshots, stops)
            &&& went_on(m, e, seq![Ask::RemoveIce(ice_name(set))])
            &&& reply(m, 0) is Done
            &&& restored == went(m, d.asked.len() as int + 1, m.asked.len() as int)
            &&& total == sent(m, d.asked.len() as int + 1, m.asked.len() as int)
            &&& total == snapshot_ids(snapshots).len()
        };
    let at = Seq::new(snapshots.len(), |k: int| stops[k + 1].asked.len() - 1);
    let n = snapshots.len() as int;
    assert forall|k: int| 0 <= k < at.len() implies {
        &&& d.asked.len() < #[trigger] at[k] < e.asked.len()
        &&& e.asked[at[k]] == laying_out(snapshots[k].name, snapshots[k].layout)
    } by {
        let next = k + 1;
        assert(reopened(stops[k], stops[k + 1], snapshots[k]));
        lemma_reopened(stops[k], stops[k + 1], snapshots[k]);
        lemma_all_reopened_quietly(read, m, snapshots, stops, 0, k);
        lemma_all_reopened_quietly(read, m, snapshots, stops, next, n);
        assert(m.asked[at[k]] == stops[next].asked[at[k]]);
        assert(e.asked[at[k]] == m.asked[at[k]]);
    }
    assert forall|j: int, k: int| 0 <= j < k < at.len() implies #[trigger] at[j]
        < #[trigger] at[k] by {
        assert(reopened(stops[k], stops[k + 1], snapshots[k]));
        lemma_reopened(stops[k], stops[k + 1], snapshots[k]);
        lemma_all_reopened_quietly(read, m, snapshots, stops, j + 1, k);
    }
    assert forall|k: int, id: i64|
        0 <= k < at.len() && #[trigger] all_ids(snapshots[k].tree).contains(id) implies sent_between(
        e,
        if k == 0 {
            d.asked.len() as int
        } else {
            at[k - 1]
        },
        at[k],
        id,
        snapshots[k].name,
    ) by {
        let next = k + 1;
        assert(reopened(stops[k], stops[k + 1], snapshots[k]));
        let i = lemma_reopened_sends(stops[k], stops[k + 1], snapshots[k], id);
        lemma_all_reopened_quietly(read, m, snapshots, stops, next, n);
        lemma_all_reopened_quietly(read, m, snapshots, stops, 0, k);
        assert(m.asked[i] == stops[next].asked[i]);
        assert(e.asked[i] == m.asked[i]);
        assert(e.asked[i] == Ask::Run(
            "[con_id="@ + integer(id as int) + "]"@ + " move to workspace \""@ + snapshots[k].name
                + "\""@,
        ));
    }
    assert forall|i: int|
        d.asked.len() <= i < e.asked.len() && lays_out(#[trigger] e.asked[i]) implies at.contains(
        i,
    ) by {
        lemma_all_reopened_quietly(read, m, snapshots, stops, 0, n);
        let start = d.asked.len() as int;
        assert(read.asked[start] is ReadIce);
        assert(m.asked[start] == read.asked[start]);
        assert(e.asked[start] == m.asked[start]);
        assert(e.asked.last() is RemoveIce);
        assert(e.asked[i] is Run);
        assert(e.asked[i] == m.asked[i]);
        let k = lemma_within_stops(read, m, snapshots, stops, i, n);
        let next = k + 1;
        lemma_all_reopened_quietly(read, m, snapshots, stops, next, n);
        assert(m.asked[i] == stops[next].asked[i]);
        assert(reopened(stops[k], stops[k + 1], snapshots[k]));
        lemma_reopened_lays_out_last(stops[k], stops[k + 1], snapshots[k], i);
        assert(at[k] == i);
    }
    at
}

/// The request at `i` is made while one of the snapshots is restored.
proof fn lemma_within_stops(
    d: Dialogue,
    e: Dialogue,
    snapshots: Seq<Snapshot>,
    stops: Seq<Dialogue>,
    i: int,
    to: int,
) -> (k: int)
    requires
        all_reopened(d, e, snapshots, stops),
        0 <= to <= snapshots.len(),
        d.asked.len() <= i < stops[to].asked.len(),
    ensures
        0 <= k < to,
        stops[k].asked.len() <= i < stops[k + 1].asked.len(),
    decreases to,
{
    if to > 0 && i >= stops[to - 1].asked.len() {
        to - 1
    } else {
        lemma_within_stops(d, e, snapshots, stops, i, to - 1)
    }
}

proof fn lemma_reopened(d: Dialogue, e: Dialogue, snapshot: Snapshot)
    requires
        reopened(d, e, snapshot),
    ensures
        d.asked.len() < e.asked.len(),
        e.asked.last() == laying_out(snapshot.name, snapshot.layout),
{
}

proof fn lemma_reopened_sends(d: Dialogue, e: Dialogue, snapshot: Snapshot, id: i64) -> (i: int)
    requires
        reopened(d, e, snapshot),
        all_ids(snapshot.tree).contains(id),
    ensures
        d.asked.len() <= i < e.asked.len() - 1,
        e.asked[i] == Ask::Run(move_command(id, snapshot.name)),
{
    let m = choose|m: Dialogue|
        {
            &&& #[trigger] brought_back(
                d,
                m,
                snapshot.tree,
                layouts_of(snapshot.tree),
                snapshot.name,
            )
            &&& stepped(d, m, all_steps(snapshot.tree, snapshot.name))
            &&& went_on(
                m,
                e,
                seq![Ask::Run(lay_out_command(snapshot.name, snapshot.layout))],
            )
        };
    let n = d.asked.len() as int;
    let ids = all_ids(snapshot.tree);
    let request = Ask::Run(move_command(id, snapshot.name));
    let f = |request: Ask| is_move(request);
    let rest = m.asked.skip(n);
    let j = ids.index_of(id);
    assert(moves(ids, snapshot.name)[j] == request);
    assert(rest.filter(f).contains(request));
    rest.lemma_filter_contains_rev(f, request);
    let i = n + rest.index_of(request);
    assert(m.asked[i] == request);
    assert(e.asked[i] == m.asked[i]);
    i
}

proof fn lemma_reopened_lays_out_last(d: Dialogue, e: Dialogue, snapshot: Snapshot, i: int)
    requires
        reopened(d, e, snapshot),
        d.asked.len() <= i < e.asked.len(),
        lays_out(e.asked[i]),
    ensures
        i == e.asked.len() - 1,
{
    let m = choose|m: Dialogue|
        {
            &&& #[trigger] brought_back(
                d,
                m,
                snapshot.tree,
                layouts_of(snapshot.tree),
                snapshot.name,
            )
            &&& stepped(d, m, all_steps(snapshot.tree, snapshot.name))
            &&& went_on(
                m,
                e,
                seq![Ask::Run(lay_out_command(snapshot.name, snapshot.layout))],
            )
        };
    let n = d.asked.len() as int;
    if i < m.asked.len() {
        assert(e.asked[i] == m.asked[i]);
        assert(brings_back(m, n, i, snapshot.tree, layouts_of(snapshot.tree), snapshot.name));
        reveal_strlit("workspace \"");
        reveal_strlit("[con_id=");
        reveal_strlit("splitv");
        reveal_strlit("splith");
        reveal_strlit("layout tabbed");
        reveal_strlit("layout stacking");
        let (workspace, layout) = choose|workspace: Seq<char>, layout: Seq<char>|
            e.asked[i] == #[trigger] laying_out(workspace, layout);
        let command = "workspace \""@ + workspace + "\", layout "@ + layout;
        assert(command[0] == 'w');
        assert(e.asked[i] == Ask::Run(command));
    }
}

/// Whether an output is the first active one, besides the one with the focus,
/// whose monitor shows a set.
pub open spec fn is_first_elsewhere(
    outputs: Seq<Output>,
    shown: TextMap,
    here: Output,
    there: Output,
    set: Seq<char>,
) -> bool {
    exists|i: int|
        {
            &&& 0 <= i < outputs.len()
            &&& #[trigger] outputs[i] == there
            &&& shows_elsewhere(there, shown, here, set)
            &&& forall|j: int|
                0 <= j < i ==> !shows_elsewhere(#[trigger] outputs[j], shown, here, set)
        }
}

/// Whether an active output other than the one with the focus shows a set.
pub open spec fn shows_elsewhere(
    output: Output,
    shown: TextMap,
    here: Output,
    set: Seq<char>,
) -> bool {
    output.active && id_of(output) != id_of(here) && shown.get(id_of(output)) == Some(set)
}

proof fn lemma_first_elsewhere(
    outputs: Seq<Output>,
    shown: TextMap,
    here: Output,
    there: Output,
    set: Seq<char>,
)
    requires
        is_first_elsewhere(outputs, shown, here, there, set),
    ensures
        ({
            let monitors = connected_monitors(outputs);
            let f = |other: Seq<char>| holds(shown, id_of(here), set, other);
            &&& first(ids_of(monitors), f) == Some(id_of(there))
            &&& monitor_by_id(monitors, id_of(there)) is Some
            &&& drives(there, monitor_by_id(monitors, id_of(there))->0)
        }),
    decreases outputs.len(),
{
    let f = |other: Seq<char>| holds(shown, id_of(here), set, other);
    let i = choose|i: int|
        {
            &&& 0 <= i < outputs.len()
            &&& #[trigger] outputs[i] == there
            &&& shows_elsewhere(there, shown, here, set)
            &&& forall|j: int|
                0 <= j < i ==> !shows_elsewhere(#[trigger] outputs[j], shown, here, set)
        };
    let front = outputs.drop_last();
    let monitors = connected_monitors(outputs);
    let some = connected_monitors(front);
    if outputs.last().active {
        assert(monitors.drop_last() == some);
        assert(ids_of(monitors).drop_last() == ids_of(some));
    }
    if i < front.len() {
        assert(front[i] == there);
        assert forall|j: int| 0 <= j < i implies !shows_elsewhere(
            #[trigger] front[j],
            shown,
            here,
            set,
        ) by {
            assert(front[j] == outputs[j]);
        }
        assert(is_first_elsewhere(front, shown, here, there, set));
        lemma_first_elsewhere(front, shown, here, there, set);
    } else {
        let ids = ids_of(some);
        if taken(shown, id_of(here), ids, set) {
            lemma_taken_elsewhere(front, here, shown, set);
            let k = choose|k: int|
                {
                    &&& 0 <= k < front.len()
                    &&& (#[trigger] front[k]).active
                    &&& id_of(front[k]) != id_of(here)
                    &&& shown.get(id_of(front[k])) == Some(set)
                };
            assert(shows_elsewhere(outputs[k], shown, here, set));
        }
        assert forall|k: int| 0 <= k < ids.len() implies !f(#[trigger] ids[k]) by {}
        lemma_first(ids, f);
        law_monitor_is_found_by_its_identifier(some, id_of(there));
        assert(monitor_by_id(some, id_of(there)) is None) by {
            if let Some(found) = monitor_by_id(some, id_of(there)) {
                let k = choose|k: int|
                    {
                        &&& 0 <= k < some.len()
                        &&& #[trigger] some[k] == found
                        &&& found.id == id_of(there)
                        &&& forall|j: int| 0 <= j < k ==> (#[trigger] some[j]).id != id_of(there)
                    };
                assert(ids[k] == some[k].id);
            }
        }
        assert(monitors.last() == monitor_on(there));
        assert(drives(there, monitor_on(there)));
        assert(ids_of(monitors).last() == id_of(there));
    }
}

/// Whether the monitor with the focus is to exchange its set with another: the
/// first two replies, and the two after them, tell so.
pub open spec fn comes_to_a_set_shown_there(
    d: Dialogue,
    here: Output,
    there: Output,
    old_set: Seq<char>,
    set: Seq<char>,
    shown: TextMap,
) -> bool {
    &&& d.answered()
    &&& old_set != set
    &&& exists|before: Output| #[trigger]
        assigned_in(reply(d, 0), reply(d, 1), before, Some(old_set))
    &&& has_focus_in(reply(d, 2), here)
    &&& assignments_in(reply(d, 3)) == Some(shown)
    &&& reply(d, 2) matches Reply::Outputs(outputs) && is_first_elsewhere(
        outputs@,
        shown,
        here,
        there,
        set,
    )
}

/// Whether sets were exchanged in the assignments: each monitor is assigned
/// the set of the other, no further one is assigned either, and the rest is as
/// it was.
pub open spec fn exchanges(
    before: TextMap,
    after: TextMap,
    here: Seq<char>,
    there: Seq<char>,
    old_set: Seq<char>,
    set: Seq<char>,
) -> bool {
    &&& after.get(here) == Some(set)
    &&& after.get(there) == Some(old_set)
    &&& forall|other: Seq<char>|
        other != here && other != there ==> #[trigger] after.get(other) == if before.get(other)
            == Some(set) || before.get(other) == Some(old_set) {
            None
        } else {
            before.get(other)
        }
}

/// Picking a set that another monitor shows exchanges the sets of the two: it
/// is stored so, and each ends at the workspace of its new set that was visible
/// on the other, the focused one last.
pub proof fn law_picking_a_set_shown_there_exchanges_the_sets(
    d: Dialogue,
    here: Output,
    there: Output,
    old_set: Seq<char>,
    set: Seq<char>,
    shown: TextMap,
    left: Seq<char>,
    taken_over: Seq<char>,
)
    requires
        comes_to_a_set_shown_there(d, here, there, old_set, set, shown),
        view_of(here.current_workspace) == Some(left),
        belongs(left, old_set),
        view_of(there.current_workspace) == Some(taken_over),
        belongs(taken_over, set),
        change_set_program(set)(d).1 is Ok,
    ensures
        ({
            let e = change_set_program(set)(d).0;
            &&& ends_showing(e, d.asked.len() as int, here.name@, taken_over)
            &&& exists|k: int, after: TextMap|
                {
                    &&& d.asked.len() <= k < e.asked.len()
                    &&& #[trigger] e.asked[k] == Ask::Write(
                        File::Assignments,
                        #[trigger] object_text(after),
                    )
                    &&& exchanges(shown, after, id_of(here), id_of(there), old_set, set)
                }
            &&& exists|j: int|
                {
                    &&& d.asked.len() <= j < e.asked.len()
                    &&& #[trigger] e.asked[j] == Ask::Run(
                        "focus output \""@ + there.name@ + "\"; workspace \""@ + left + "\""@,
                    )
                }
        }),
{
    let e = change_set_program(set)(d).0;
    let before = choose|before: Output| #[trigger]
        assigned_in(reply(d, 0), reply(d, 1), before, Some(old_set));
    let (m, r0) = load_program()(d);
    lemma_looked(d, m, r0->Ok_0);
    if let Reply::Outputs(outputs) = reply(d, 0) {
        lemma_here(outputs@, before);
    }
    let (d1, r1) = ensure_set_program()(d);
    assert(d1 == m && r1->Ok_0 == old_set);
    assert(reply(d1, 0) == reply(d, 2) && reply(d1, 1) == reply(d, 3));
    let (d2, r2) = load_program()(d1);
    let display = r2->Ok_0;
    lemma_looked(d1, d2, display);
    let monitor = focused_monitor(display.monitors)->0;
    let other = monitor_by_id(display.monitors, id_of(there))->0;
    let ids = ids_of(display.monitors);
    if let Reply::Outputs(outputs) = reply(d, 2) {
        lemma_here(outputs@, here);
        lemma_first_elsewhere(outputs@, shown, here, there, set);
    }
    let d3 = touch_set_program(set)(d2).0;
    lemma_touch_set_steady(set);
    lemma_grows(touch_set_program(set), d2);
    let plan = planned(display.shown, monitor.id, old_set, set, ids);
    assert(plan == Planned::Swap { monitor: id_of(there), old: old_set });
    let d4 = carry_out_program(display, monitor, set, plan)(d3).0;
    lemma_carry_out_steady(display, monitor, set, plan);
    lemma_grows(carry_out_program(display, monitor, set, plan), d3);
    lemma_swapped(display, monitor, other, id_of(there), old_set, set, d3);
    law_carrying_places_every_open_pinned_window(set, d4);
    lemma_carried_along_carries(d4, e, set);
    lemma_swapped_shows(d3, d4, display, monitor, other, old_set, set, left, taken_over);
    let after = assigned(assigned(shown, monitor.id, set), other.id, old_set);
    assert forall|name: Seq<char>|
        name != id_of(here) && name != id_of(there) implies #[trigger] after.get(name)
        == if shown.get(name) == Some(set) || shown.get(name) == Some(old_set) {
        None
    } else {
        shown.get(name)
    } by {
        law_assigned_set_is_shown_on_its_monitor_alone(shown, monitor.id, set, name);
        law_assigned_set_is_shown_on_its_monitor_alone(
            assigned(shown, monitor.id, set),
            other.id,
            old_set,
            name,
        );
    }
    law_assigned_set_is_shown_on_its_monitor_alone(shown, monitor.id, set, other.id);
    law_assigned_set_is_shown_on_its_monitor_alone(
        assigned(shown, monitor.id, set),
        other.id,
        old_set,
        monitor.id,
    );
    assert(exchanges(shown, after, id_of(here), id_of(there), old_set, set));
    let k = d3.asked.len() as int;
    assert(e.asked[k] == d4.asked[k]);
    assert(e.asked[k] == Ask::Write(File::Assignments, object_text(after)));
    let n = d4.asked.len() as int;
    assert(e.asked[n - 1] == d4.asked[n - 1]);
    assert(e.asked[n - 2] == d4.asked[n - 2]);
}

proof fn lemma_swapped_shows(
    d: Dialogue,
    e: Dialogue,
    display: Display,
    here: Screen,
    there: Screen,
    old_set: Seq<char>,
    set: Seq<char>,
    left: Seq<char>,
    taken_over: Seq<char>,
)
    requires
        swapped(d, e, display, here, there, old_set, set),
        here.visible == Some(left),
        belongs(left, old_set),
        there.visible == Some(taken_over),
        belongs(taken_over, set),
    ensures
        e.asked.len() >= d.asked.len() + 3,
        e.asked[d.asked.len() as int] == Ask::Write(
            File::Assignments,
            object_text(assigned(assigned(display.shown, here.id, set), there.id, old_set)),
        ),
        e.asked[e.asked.len() - 2] == Ask::Run(show_command(there.name, left)),
        e.asked[e.asked.len() - 1] == Ask::Run(show_command(here.name, taken_over)),
{
    let write = Ask::Write(
        File::Assignments,
        object_text(assigned(assigned(display.shown, here.id, set), there.id, old_set)),
    );
    let (d1, d2, d3, leaving, arriving, d4, d5) = choose|
        d1: Dialogue,
        d2: Dialogue,
        d3: Dialogue,
        leaving: Option<Seq<char>>,
        arriving: Option<Seq<char>>,
        d4: Dialogue,
        d5: Dialogue,
    |
        #![trigger remembered(d1, d2, old_set, here.visible), remembered(d2, d3, set, there.visible), recalled(d3, d4, old_set, leaving), recalled(d4, d5, set, arriving)]
        {
            &&& went_on(d, d1, seq![write])
            &&& reply(d, 0) is Done
            &&& remembered(d1, d2, old_set, here.visible)
            &&& remembered(d2, d3, set, there.visible)
            &&& recalled(d3, d4, old_set, leaving)
            &&& recalled(d4, d5, set, arriving)
            &&& exchanged(
                d5,
                e,
                here,
                there,
                old_set,
                set,
                visible_or_home_named(here.visible, leaving, old_set),
                visible_or_home_named(there.visible, arriving, set),
            )
        };
    law_set_opens_at_what_is_inherited_or_left(here.visible, leaving, old_set);
    law_set_opens_at_what_is_inherited_or_left(there.visible, arriving, set);
    let (d6, d7, d8, came, gone) = choose|
        d6: Dialogue,
        d7: Dialogue,
        d8: Dialogue,
        came: bool,
        gone: bool,
    |
        #![trigger brought(d5, d6, set, here.name, came), brought(d6, d7, old_set, there.name, gone), commanded(d7, d8, show_command(there.name, left))]
        {
            &&& brought(d5, d6, set, here.name, came)
            &&& brought(d6, d7, old_set, there.name, gone)
            &&& commanded(d7, d8, show_command(there.name, left))
            &&& commanded(d8, e, show_command(here.name, taken_over))
        };
    lemma_brought_quietly(d5, d6, set, here.name, came);
    lemma_brought_quietly(d6, d7, old_set, there.name, gone);
    let k = d.asked.len() as int;
    assert(d1.asked[k] == write);
    assert(d5.asked[k] == d1.asked[k]);
    assert(d6.asked[k] == d5.asked[k]);
    assert(d7.asked[k] == d6.asked[k]);
    assert(e.asked[k] == d7.asked[k]);
}

proof fn lemma_replaced_assigns(
    start: Dialogue,
    end: Dialogue,
    e: Dialogue,
    display: Display,
    monitor: Screen,
    old_set: Seq<char>,
    set: Seq<char>,
) -> (k: int)
    requires
        replaced(start, end, display, monitor, old_set, set),
        carried_along(end, e, set),
    ensures
        start.asked.len() <= k < e.asked.len(),
        e.asked[k] == Ask::Write(
            File::Assignments,
            object_text(assigned(display.shown, monitor.id, set)),
        ),
{
    let write = Ask::Write(
        File::Assignments,
        object_text(assigned(display.shown, monitor.id, set)),
    );
    let way = choose|way: Way| #[trigger]
        replaced_so(start, end, display, monitor, old_set, set, way);
    let (d1, d2, d3) = (way.remembered, way.frozen, way.assigned);
    let (d4, d5, left) = (way.recalled, way.brought, way.left);
    lemma_froze_quietly(d1, d2, old_set, way.count);
    lemma_brought_quietly(d4, d5, set, monitor.name, way.changed);
    lemma_carried_along_carries(end, e, set);
    lemma_quietly_on(d3, d4, d5);
    lemma_quietly_on(d3, d5, end);
    lemma_quietly_on(d3, end, e);
    let k = d2.asked.len() as int;
    assert(d3.asked[k] == write);
    assert(e.asked[k] == d3.asked[k]);
    k
}

/// Coming to a set that no monitor shows assigns it to the monitor with the
/// focus, and leaves the sets of all others as they are.
pub proof fn law_set_come_to_is_assigned(
    d: Dialogue,
    here: Output,
    old_set: Seq<char>,
    set: Seq<char>,
    shown: TextMap,
)
    requires
        comes_to_a_hidden_set(d, here, old_set, set),
        assignments_in(reply(d, 3)) == Some(shown),
        change_set_program(set)(d).1 is Ok,
    ensures
        ({
            let e = change_set_program(set)(d).0;
            exists|k: int, after: TextMap|
                {
                    &&& d.asked.len() <= k < e.asked.len()
                    &&& #[trigger] e.asked[k] == Ask::Write(
                        File::Assignments,
                        #[trigger] object_text(after),
                    )
                    &&& after.get(id_of(here)) == Some(set)
                    &&& forall|other: Seq<char>|
                        other != id_of(here) ==> #[trigger] after.get(other) == if shown.get(other)
                            == Some(set) {
                            None
                        } else {
                            shown.get(other)
                        }
                }
        }),
{
    let e = change_set_program(set)(d).0;
    let (start, end, display, monitor) = lemma_comes_in_place(d, here, old_set, set);
    let after = assigned(shown, monitor.id, set);
    let k = lemma_replaced_assigns(start, end, e, display, monitor, old_set, set);
    assert forall|other: Seq<char>| other != id_of(here) implies #[trigger] after.get(other)
        == if shown.get(other) == Some(set) {
        None
    } else {
        shown.get(other)
    } by {
        law_assigned_set_is_shown_on_its_monitor_alone(shown, monitor.id, set, other);
    }
}

/// Whether a request leaves what the monitors show, what is stored of the sets
/// and where they were left as they are.
pub open spec fn leaves_the_sets(request: Ask) -> bool {
    ||| concerns_a_window(request)
    ||| request is Outputs
    ||| request is Read
    ||| request matches Ask::Write(File::Sets, _)
}

/// Picking the set that is shown changes nothing but which set was used last,
/// and carries the pinned windows there.
pub proof fn law_picking_the_set_that_is_shown_changes_nothing(
    d: Dialogue,
    here: Output,
    set: Seq<char>,
    i: int,
)
    requires
        d.answered(),
        assigned_in(reply(d, 0), reply(d, 1), here, Some(set)),
        change_set_program(set)(d).1 is Ok,
        d.asked.len() <= i < change_set_program(set)(d).0.asked.len(),
    ensures
        leaves_the_sets(change_set_program(set)(d).0.asked[i]),
{
    let e = change_set_program(set)(d).0;
    let (m, r0) = load_program()(d);
    lemma_looked(d, m, r0->Ok_0);
    if let Reply::Outputs(outputs) = reply(d, 0) {
        lemma_here(outputs@, here);
    }
    let (d1, r1) = ensure_set_program()(d);
    assert(d1 == m && r1->Ok_0 == set);
    let (d2, r2) = load_program()(d1);
    let display = r2->Ok_0;
    lemma_looked(d1, d2, display);
    let d3 = touch_set_program(set)(d2).0;
    lemma_used(d2, d3, set);
    law_carrying_places_every_open_pinned_window(set, d3);
    lemma_carried_along_carries(d3, e, set);
    if i < d3.asked.len() {
        assert(e.asked[i] == d3.asked[i]);
    }
}

} // verus!
