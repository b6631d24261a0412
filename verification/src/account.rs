//! What the operations ask for, told in full: for each operation that succeeds,
//! the requests it makes one after another, and how they follow from what it
//! was told.

use crate::assignments::{assigned, planned, resolved, Planned};
use crate::carrying::lemma_grows;
use crate::change::{
    all_to, bring_commands, bring_program, carry_out_program, carry_pins_program,
    change_set_program, claim_program, elsewhere, ensure_set_program, exchange_program,
    keep_sets_program, law_bringing_takes_the_workspaces_elsewhere, names_of, place_pin_program,
    place_pins_program, prune_sets_program, replace_program, resident, show_program, swap_program,
    thaw_if_iced_program,
};
use crate::dialogue::{run_all_program, run_program, Ask, Dialogue, File, Halt, Reply};
use crate::freeze::{frozen, ice_set_program, thaw_set_program};
use crate::json::{object_entries, object_text};
use crate::parking::{lemma_move_all_asks, moves};
use crate::pins::{live_pins, pinned_windows, Pin};
use crate::resume::{
    lemma_bring_steady, lemma_carry_out_steady, lemma_ensure_set_steady, lemma_ice_set_steady,
    lemma_place_pin_steady, lemma_remember_workspace_steady, lemma_thaw_if_iced_steady,
    lemma_touch_set_steady,
};
use crate::screens::{
    connected_monitors, focused_monitor, focused_set_program, ids_of, load_program, monitor_by_id,
    shown_sets, Display, Screen,
};
use crate::sets::{ice_name, is_live, list_text, listed, other_than, stem, stems};
use crate::snapshot::{snapshot_ids, stripped};
use crate::state::{
    chosen, last_workspace_program, list_iced_program, list_sets_program, pins_program,
    remember_workspace_program, save_assignments_program, save_pins_program, select_program,
    touch_set_program, tree_program, workspaces_program,
};
use crate::string_map::{only_keys, TextMap};
use crate::sway::{carry_command, show_command, swap_command, switch_command};
use crate::text::{joined, upper, views};
use crate::thawing::{law_thawing_reopens_every_workspace_as_it_was, thawed};
use crate::tree::{live_ids, named_workspace, set_snapshots, tiled_window, Node};
use crate::workspace::{belongs, visible_or_home_named, workspace_named, PARKING_WORKSPACE};
use vstd::prelude::*;

verus! {

/// Whether a dialogue went on with exactly these requests, each of which has
/// its reply.
pub open spec fn went_on(d: Dialogue, e: Dialogue, requests: Seq<Ask>) -> bool {
    &&& e.replies == d.replies
    &&& e.asked == d.asked + requests
    &&& e.asked.len() <= e.replies.len()
}

/// The reply to the `k`-th request to come.
pub open spec fn reply(d: Dialogue, k: int) -> Reply {
    d.replies[d.asked.len() + k]
}

/// The dialogue once a request has been made.
pub open spec fn once_asked(d: Dialogue, request: Ask) -> Dialogue {
    Dialogue { asked: d.asked.push(request), ..d }
}

/// Whether every one of the commands run succeeded.
pub open spec fn succeeded(reply: Reply) -> bool {
    match reply {
        Reply::Ran(outcomes) => forall|i: int|
            0 <= i < outcomes@.len() ==> #[trigger] outcomes@[i],
        _ => false,
    }
}

/// The assignments that a reply tells: none before any are stored.
pub open spec fn assignments_in(reply: Reply) -> Option<TextMap> {
    match reply {
        Reply::Text(text) => object_entries(text@),
        Reply::Missing => Some(Map::empty()),
        _ => None,
    }
}

/// The known sets that a reply tells: `main`, `work` and `scratch` where it
/// tells none.
pub open spec fn sets_in(reply: Reply) -> Option<Seq<Seq<char>>> {
    match reply {
        Reply::Text(text) => Some(listed(text@)),
        Reply::Missing => Some(seq!["main"@, "work"@, "scratch"@]),
        Reply::Failed => Some(seq!["main"@, "work"@, "scratch"@]),
        _ => None,
    }
}

/// Where a reply tells that the sets were last left.
pub open spec fn last_in(reply: Reply) -> Option<TextMap> {
    match reply {
        Reply::Text(text) => match object_entries(text@) {
            Some(last) => Some(last),
            None => Some(Map::empty()),
        },
        Reply::Missing => Some(Map::empty()),
        Reply::Failed => Some(Map::empty()),
        _ => None,
    }
}

/// The frozen sets that a reply tells: each by its file's name without the
/// ending.
pub open spec fn iced_in(reply: Reply) -> Option<Seq<Seq<char>>> {
    match reply {
        Reply::Names(names) => Some(Seq::new(names@.len(), |i: int| stem(names@[i]@))),
        Reply::Missing => Some(seq![]),
        _ => None,
    }
}

/// The pins that a reply tells.
pub open spec fn pins_in(reply: Reply) -> Option<Seq<Pin>> {
    match reply {
        Reply::Pins(pins) => Some(pins@),
        Reply::Missing => Some(seq![]),
        Reply::Failed => Some(seq![]),
        _ => None,
    }
}

/// Whether the connected monitors and what they show were read.
pub open spec fn looked(d: Dialogue, e: Dialogue, display: Display) -> bool {
    &&& went_on(d, e, seq![Ask::Outputs, Ask::Read(File::Assignments)])
    &&& reply(d, 0) matches Reply::Outputs(outputs)
    &&& display.monitors == connected_monitors(outputs@)
    &&& assignments_in(reply(d, 1)) == Some(display.shown)
}

pub proof fn lemma_looked(d: Dialogue, e: Dialogue, display: Display)
    requires
        d.answered(),
    ensures
        load_program()(d) == (e, Ok::<Display, Halt>(display)) <==> looked(d, e, display),
{
    let requests = seq![Ask::Outputs, Ask::Read(File::Assignments)];
    assert(d.asked.push(Ask::Outputs).push(Ask::Read(File::Assignments)) == d.asked + requests);
    let (e1, r1) = load_program()(d);
    if r1 is Ok {
        assert(e1.asked == d.asked + requests);
    }
    if looked(d, e, display) {
        assert(r1 == Ok::<Display, Halt>(display));
        assert(e1.asked == e.asked);
    }
}

/// Whether a set was recorded as the most recently used: it comes first, and
/// the others keep their order.
pub open spec fn used(d: Dialogue, e: Dialogue, set: Seq<char>) -> bool {
    match sets_in(reply(d, 0)) {
        Some(known) => if known.len() > 0 && known[0] == set {
            went_on(d, e, seq![Ask::Read(File::Sets)])
        } else {
            &&& went_on(
                d,
                e,
                seq![
                    Ask::Read(File::Sets),
                    Ask::Write(
                        File::Sets,
                        list_text(seq![set] + known.filter(|other: Seq<char>| other != set)),
                    ),
                ],
            )
            &&& reply(d, 1) is Done
        },
        None => false,
    }
}

pub proof fn lemma_used(d: Dialogue, e: Dialogue, set: Seq<char>)
    requires
        d.answered(),
    ensures
        touch_set_program(set)(d) == (e, Ok::<(), Halt>(())) <==> used(d, e, set),
{
    let f = |other: Seq<char>| other != set;
    assert(f =~= other_than(set));
    let read = Ask::Read(File::Sets);
    let (e1, r1) = touch_set_program(set)(d);
    assert(d.asked.push(read) == d.asked + seq![read]);
    if let Some(known) = sets_in(reply(d, 0)) {
        let write = Ask::Write(File::Sets, list_text(seq![set] + known.filter(f)));
        assert(d.asked.push(read).push(write) == d.asked + seq![read, write]);
    }
}

/// Whether where a set was left was recorded: at a workspace of its own, and
/// nothing was changed for the other sets; otherwise nothing was done.
pub open spec fn remembered(
    d: Dialogue,
    e: Dialogue,
    set: Seq<char>,
    workspace: Option<Seq<char>>,
) -> bool {
    match workspace {
        Some(workspace) => if belongs(workspace, set) {
            match last_in(reply(d, 0)) {
                Some(last) => {
                    &&& went_on(
                        d,
                        e,
                        seq![
                            Ask::Read(File::Last),
                            Ask::Write(File::Last, object_text(last.insert(set, workspace))),
                        ],
                    )
                    &&& reply(d, 1) is Done
                },
                None => false,
            }
        } else {
            e == d
        },
        None => e == d,
    }
}

pub proof fn lemma_remembered(
    d: Dialogue,
    e: Dialogue,
    set: Seq<char>,
    workspace: Option<Seq<char>>,
)
    requires
        d.answered(),
    ensures
        remember_workspace_program(set, workspace)(d) == (e, Ok::<(), Halt>(())) <==> remembered(
            d,
            e,
            set,
            workspace,
        ),
{
    let read = Ask::Read(File::Last);
    if let Some(last) = last_in(reply(d, 0)) {
        if workspace is Some {
            let write = Ask::Write(File::Last, object_text(last.insert(set, workspace->0)));
            assert(d.asked.push(read).push(write) == d.asked + seq![read, write]);
        }
    }
}

/// Whether it was looked up where a set was left.
pub open spec fn recalled(
    d: Dialogue,
    e: Dialogue,
    set: Seq<char>,
    left: Option<Seq<char>>,
) -> bool {
    &&& went_on(d, e, seq![Ask::Read(File::Last)])
    &&& last_in(reply(d, 0)) matches Some(last) && left == last.get(set)
}

pub proof fn lemma_recalled(d: Dialogue, e: Dialogue, set: Seq<char>, left: Option<Seq<char>>)
    requires
        d.answered(),
    ensures
        last_workspace_program(set)(d) == (e, Ok::<Option<Seq<char>>, Halt>(left)) <==> recalled(
            d,
            e,
            set,
            left,
        ),
{
    let read = Ask::Read(File::Last);
    assert(d.asked.push(read) == d.asked + seq![read]);
}

/// Whether one command was run and succeeded.
pub open spec fn commanded(d: Dialogue, e: Dialogue, command: Seq<char>) -> bool {
    went_on(d, e, seq![Ask::Run(command)]) && succeeded(reply(d, 0))
}

pub proof fn lemma_commanded(d: Dialogue, e: Dialogue, command: Seq<char>)
    requires
        d.answered(),
    ensures
        run_program(command)(d) == (e, Ok::<(), Halt>(())) <==> commanded(d, e, command),
{
    assert(d.asked.push(Ask::Run(command)) == d.asked + seq![Ask::Run(command)]);
}

/// Whether commands were run one after another and all succeeded.
pub open spec fn all_commanded(d: Dialogue, e: Dialogue, commands: Seq<Seq<char>>) -> bool {
    &&& went_on(d, e, Seq::new(commands.len(), |i: int| Ask::Run(commands[i])))
    &&& forall|i: int| 0 <= i < commands.len() ==> succeeded(#[trigger] reply(d, i))
}

pub proof fn lemma_all_commanded(d: Dialogue, e: Dialogue, commands: Seq<Seq<char>>)
    requires
        d.answered(),
    ensures
        run_all_program(commands)(d) == (e, Ok::<(), Halt>(())) <==> all_commanded(d, e, commands),
    decreases commands.len(),
{
    let requests = Seq::new(commands.len(), |i: int| Ask::Run(commands[i]));
    if commands.len() == 0 {
        assert(d.asked + requests == d.asked);
    } else {
        let front = commands.drop_last();
        let some = Seq::new(front.len(), |i: int| Ask::Run(front[i]));
        let n = front.len() as int;
        let d1 = Dialogue { asked: d.asked + some, ..d };
        assert(requests == some.push(Ask::Run(commands.last())));
        assert(d.asked + requests == d1.asked + seq![Ask::Run(commands.last())]);
        lemma_all_commanded(d, d1, front);
        let (e1, r1) = run_all_program(front)(d);
        if r1 is Ok {
            lemma_all_commanded(d, e1, front);
            assert(e1 == d1);
            lemma_commanded(d1, e, commands.last());
            assert(reply(d1, 0) == reply(d, n));
        }
        if all_commanded(d, e, commands) {
            assert(forall|i: int| 0 <= i < front.len() ==> succeeded(#[trigger] reply(d, i)));
            assert(all_commanded(d, d1, front));
            assert(succeeded(reply(d, n)));
        }
        if run_all_program(commands)(d) == (e, Ok::<(), Halt>(())) {
            assert forall|i: int| 0 <= i < commands.len() implies succeeded(
                #[trigger] reply(d, i),
            ) by {}
        }
    }
}

/// Whether a set was brought to an output: thawed if it was frozen, and then
/// the workspaces of it that were elsewhere moved there, in their order.
pub open spec fn brought(
    d: Dialogue,
    e: Dialogue,
    set: Seq<char>,
    output: Seq<char>,
    changed: bool,
) -> bool {
    exists|m: Dialogue, commands: Seq<Seq<char>>|
        {
            &&& iced_in(reply(d, 0)) matches Some(iced)
            &&& thawed_if(d, m, set, iced.contains(set))
            &&& reply(m, 0) matches Reply::Workspaces(workspaces)
            &&& commands == all_to(workspaces@.filter(elsewhere(set, output)), output)
            &&& #[trigger] all_commanded(once_asked(m, Ask::Workspaces), e, commands)
            &&& changed == (iced.contains(set) || commands.len() > 0)
        }
}

/// Whether it was asked which sets are frozen, and a set that is was thawed.
pub open spec fn thawed_if(d: Dialogue, e: Dialogue, set: Seq<char>, is_frozen: bool) -> bool {
    let m = once_asked(d, Ask::ListIced);
    if is_frozen {
        exists|restored: nat, total: nat| #[trigger] thawed(m, e, set, restored, total)
    } else {
        went_on(d, e, seq![Ask::ListIced])
    }
}

/// Bringing a set to a monitor thaws it if it is frozen, and moves exactly its
/// workspaces that are elsewhere.
pub proof fn law_bringing_thaws_and_moves(
    set: Seq<char>,
    monitor: Screen,
    d: Dialogue,
    changed: bool,
)
    requires
        d.answered(),
        bring_program(set, monitor)(d).1 == Ok::<bool, Halt>(changed),
    ensures
        brought(d, bring_program(set, monitor)(d).0, set, monitor.name, changed),
{
    let e = bring_program(set, monitor)(d).0;
    let (m, thawed_now) = thaw_if_iced_program(set)(d);
    let (d1, r1) = list_iced_program()(d);
    lemma_thaw_if_iced_steady(set);
    lemma_grows(thaw_if_iced_program(set), d);
    assert(d.asked.push(Ask::ListIced) == d.asked + seq![Ask::ListIced]);
    let iced = r1->Ok_0;
    assert(iced_in(reply(d, 0)) == Some(iced)) by {
        if let Reply::Names(names) = reply(d, 0) {
            assert(stems(views(names@)) == iced_in(reply(d, 0))->0);
        }
    }
    if iced.contains(set) {
        let counts = thaw_set_program(set)(d1).1->Ok_0;
        law_thawing_reopens_every_workspace_as_it_was(set, d1, counts.0, counts.1);
        assert(thawed(d1, m, set, counts.0, counts.1));
    }
    let (m1, r2) = workspaces_program()(m);
    let workspaces = r2->Ok_0;
    law_bringing_takes_the_workspaces_elsewhere(workspaces, set, monitor.name);
    let commands = bring_commands(workspaces, set, monitor.name);
    lemma_all_commanded(m1, e, commands);
    assert(m1 == once_asked(m, Ask::Workspaces));
    assert(d1 == once_asked(d, Ask::ListIced));
    assert(thawed_if(d, m, set, iced.contains(set)));
    assert(all_commanded(once_asked(m, Ask::Workspaces), e, commands));
}

/// Whether a set was claimed for the focused monitor, which shows none: the
/// set that is free was assigned to it, recorded as used and brought there,
/// and if that changed anything, the workspace visible before was shown again.
pub open spec fn claimed(d: Dialogue, e: Dialogue, display: Display, set: Seq<char>) -> bool {
    let here = focused_monitor(display.monitors)->0;
    exists|d1: Dialogue, d2: Dialogue, d3: Dialogue, changed: bool|
        #![trigger used(d1, d2, set), brought(d2, d3, set, here.name, changed)]
        {
            &&& sets_in(reply(d, 0)) matches Some(known)
            &&& set == resolved(display.shown, here.id, ids_of(display.monitors), known)
            &&& went_on(
                d,
                d1,
                seq![
                    Ask::Read(File::Sets),
                    Ask::Write(
                        File::Assignments,
                        object_text(assigned(display.shown, here.id, set)),
                    ),
                ],
            )
            &&& reply(d, 1) is Done
            &&& used(d1, d2, set)
            &&& brought(d2, d3, set, here.name, changed)
            &&& if changed && here.visible is Some {
                commanded(d3, e, switch_command(here.visible->0))
            } else {
                e == d3
            }
        }
}

/// Whether the set of the focused monitor was settled: the one that it is
/// assigned, and nothing more was asked; or one was claimed for it.
pub open spec fn settled_on(d: Dialogue, e: Dialogue, set: Seq<char>) -> bool {
    exists|m: Dialogue, display: Display|
        {
            &&& #[trigger] looked(d, m, display)
            &&& focused_monitor(display.monitors) matches Some(here)
            &&& match display.shown.get(here.id) {
                Some(shown) => set == shown && e == m,
                None => claimed(m, e, display, set),
            }
        }
}

pub proof fn lemma_claimed(display: Display, here: Screen, d: Dialogue, set: Seq<char>)
    requires
        d.answered(),
        focused_monitor(display.monitors) == Some(here),
        claim_program(display, here)(d).1 == Ok::<Seq<char>, Halt>(set),
    ensures
        claimed(d, claim_program(display, here)(d).0, display, set),
{
    let e = claim_program(display, here)(d).0;
    let shown = assigned(display.shown, here.id, set);
    let read = Ask::Read(File::Sets);
    let write = Ask::Write(File::Assignments, object_text(shown));
    let (d0, r0) = focused_set_program(display)(d);
    let (d1, r1) = save_assignments_program(shown)(d0);
    assert(d.asked.push(read).push(write) == d.asked + seq![read, write]);
    let d2 = touch_set_program(set)(d1).0;
    lemma_used(d1, d2, set);
    lemma_touch_set_steady(set);
    lemma_grows(touch_set_program(set), d1);
    let (d3, r3) = bring_program(set, here)(d2);
    let changed = r3->Ok_0;
    law_bringing_thaws_and_moves(set, here, d2, changed);
    lemma_bring_steady(set, here);
    lemma_grows(bring_program(set, here), d2);
    if changed && here.visible is Some {
        lemma_commanded(d3, e, switch_command(here.visible->0));
    }
    assert(used(d1, d2, set) && brought(d2, d3, set, here.name, changed));
}

/// The focused monitor's set is the one that it is assigned, whatever else is
/// known; a monitor that is assigned none is given one that is free.
pub proof fn law_focused_monitor_keeps_its_set(d: Dialogue, set: Seq<char>)
    requires
        d.answered(),
        ensure_set_program()(d).1 == Ok::<Seq<char>, Halt>(set),
    ensures
        settled_on(d, ensure_set_program()(d).0, set),
{
    let e = ensure_set_program()(d).0;
    let (m, r) = load_program()(d);
    let display = r->Ok_0;
    lemma_looked(d, m, display);
    let here = focused_monitor(display.monitors)->0;
    if display.shown.get(here.id) is None {
        lemma_claimed(display, here, m, set);
    }
    assert(looked(d, m, display));
}

/// Whether a set was frozen: what is stored are the windows of its workspaces,
/// but for the pinned ones, and exactly these were parked then.
pub open spec fn froze(d: Dialogue, e: Dialogue, set: Seq<char>, count: nat) -> bool {
    &&& reply(d, 0) matches Reply::Tree(tree)
    &&& pins_in(reply(d, 1)) matches Some(pins)
    &&& {
        let pinned = Seq::new(pins.len(), |i: int| pins[i].con_id);
        let kept = stripped(set_snapshots(tree, set), pinned);
        let ids = snapshot_ids(kept);
        &&& count == ids.len()
        &&& if kept.len() == 0 {
            went_on(d, e, seq![Ask::Tree, Ask::ReadPins])
        } else {
            &&& went_on(
                d,
                e,
                seq![Ask::Tree, Ask::ReadPins, Ask::WriteIce(ice_name(set), kept)] + moves(
                    ids,
                    PARKING_WORKSPACE@,
                ),
            )
            &&& reply(d, 2) is Done
        }
    }
}

pub proof fn lemma_froze(set: Seq<char>, d: Dialogue, count: nat)
    requires
        d.answered(),
        ice_set_program(set)(d).1 == Ok::<nat, Halt>(count),
    ensures
        froze(d, ice_set_program(set)(d).0, set, count),
{
    let e = ice_set_program(set)(d).0;
    lemma_ice_set_steady(set);
    lemma_grows(ice_set_program(set), d);
    let (d1, r1) = tree_program()(d);
    let (d2, r2) = pins_program()(d1);
    let pins = r2->Ok_0;
    let kept = frozen(r1->Ok_0, set, pins);
    assert(pinned_windows(pins) == Seq::new(pins.len(), |i: int| pins[i].con_id));
    let ids = snapshot_ids(kept);
    assert(d2.asked == d.asked + seq![Ask::Tree, Ask::ReadPins]);
    if kept.len() > 0 {
        let store = Ask::WriteIce(ice_name(set), kept);
        let d3 = Dialogue { asked: d2.asked.push(store), ..d2 };
        lemma_move_all_asks(ids, PARKING_WORKSPACE@, d3);
        assert(ids.take(ids.len() as int) == ids);
        let requests = seq![Ask::Tree, Ask::ReadPins, store] + moves(ids, PARKING_WORKSPACE@);
        assert(d3.asked + moves(ids, PARKING_WORKSPACE@) == d.asked + requests);
    } else {
        assert(ids.len() == 0);
    }
}

/// How a set is put in the place of another: the dialogue after each step, and
/// what the steps told.
pub struct Way {
    pub remembered: Dialogue,
    pub frozen: Dialogue,
    pub assigned: Dialogue,
    pub recalled: Dialogue,
    pub brought: Dialogue,
    pub count: nat,
    pub left: Option<Seq<char>>,
    pub changed: bool,
}

/// Whether a set was put in the place of another: it was recorded where the
/// old one was left, the old one was frozen, the new one assigned to the
/// monitor and brought there, and shown where it was left.
pub open spec fn replaced_so(
    d: Dialogue,
    e: Dialogue,
    display: Display,
    here: Screen,
    old: Seq<char>,
    set: Seq<char>,
    way: Way,
) -> bool {
    let shown = assigned(display.shown, here.id, set);
    &&& remembered(d, way.remembered, old, here.visible)
    &&& froze(way.remembered, way.frozen, old, way.count)
    &&& went_on(
        way.frozen,
        way.assigned,
        seq![Ask::Write(File::Assignments, object_text(shown))],
    )
    &&& reply(way.frozen, 0) is Done
    &&& recalled(way.assigned, way.recalled, set, way.left)
    &&& brought(way.recalled, way.brought, set, here.name, way.changed)
    &&& commanded(
        way.brought,
        e,
        show_command(here.name, visible_or_home_named(here.visible, way.left, set)),
    )
}

/// Whether a set was put in the place of another, in some way.
pub open spec fn replaced(
    d: Dialogue,
    e: Dialogue,
    display: Display,
    here: Screen,
    old: Seq<char>,
    set: Seq<char>,
) -> bool {
    exists|way: Way| #[trigger] replaced_so(d, e, display, here, old, set, way)
}

pub proof fn lemma_replaced(
    display: Display,
    here: Screen,
    old: Seq<char>,
    set: Seq<char>,
    d: Dialogue,
)
    requires
        d.answered(),
        replace_program(display, here, old, set)(d).1 is Ok,
    ensures
        replaced(d, replace_program(display, here, old, set)(d).0, display, here, old, set),
{
    let e = replace_program(display, here, old, set)(d).0;
    let shown = assigned(display.shown, here.id, set);
    let d1 = remember_workspace_program(old, here.visible)(d).0;
    lemma_remember_workspace_steady(old, here.visible);
    lemma_grows(remember_workspace_program(old, here.visible), d);
    lemma_remembered(d, d1, old, here.visible);
    let (d2, r2) = ice_set_program(old)(d1);
    lemma_ice_set_steady(old);
    lemma_grows(ice_set_program(old), d1);
    lemma_froze(old, d1, r2->Ok_0);
    let d3 = save_assignments_program(shown)(d2).0;
    let write = Ask::Write(File::Assignments, object_text(shown));
    assert(d2.asked.push(write) == d2.asked + seq![write]);
    let (d4, r4) = last_workspace_program(set)(d3);
    lemma_recalled(d3, d4, set, r4->Ok_0);
    let (d5, r5) = bring_program(set, here)(d4);
    lemma_bring_steady(set, here);
    lemma_grows(bring_program(set, here), d4);
    law_bringing_thaws_and_moves(set, here, d4, r5->Ok_0);
    lemma_commanded(
        d5,
        e,
        show_command(here.name, visible_or_home_named(here.visible, r4->Ok_0, set)),
    );
    let way = Way {
        remembered: d1,
        frozen: d2,
        assigned: d3,
        recalled: d4,
        brought: d5,
        count: r2->Ok_0,
        left: r4->Ok_0,
        changed: r5->Ok_0,
    };
    assert(replaced_so(d, e, display, here, old, set, way));
}

/// Whether two monitors exchanged their sets: both were assigned anew, it was
/// recorded where both sets were left, each was brought to its new monitor,
/// and shown there where it was left, the focused monitor last.
pub open spec fn swapped(
    d: Dialogue,
    e: Dialogue,
    display: Display,
    here: Screen,
    there: Screen,
    old: Seq<char>,
    set: Seq<char>,
) -> bool {
    exists|
        d1: Dialogue,
        d2: Dialogue,
        d3: Dialogue,
        leaving: Option<Seq<char>>,
        arriving: Option<Seq<char>>,
        d4: Dialogue,
        d5: Dialogue,
    |
        #![trigger remembered(d1, d2, old, here.visible), remembered(d2, d3, set, there.visible), recalled(d3, d4, old, leaving), recalled(d4, d5, set, arriving)]
        {
            &&& went_on(
                d,
                d1,
                seq![
                    Ask::Write(
                        File::Assignments,
                        object_text(
                            assigned(assigned(display.shown, here.id, set), there.id, old),
                        ),
                    ),
                ],
            )
            &&& reply(d, 0) is Done
            &&& remembered(d1, d2, old, here.visible)
            &&& remembered(d2, d3, set, there.visible)
            &&& recalled(d3, d4, old, leaving)
            &&& recalled(d4, d5, set, arriving)
            &&& exchanged(
                d5,
                e,
                here,
                there,
                old,
                set,
                visible_or_home_named(here.visible, leaving, old),
                visible_or_home_named(there.visible, arriving, set),
            )
        }
}

/// Whether two sets were brought to the monitors that exchange them and shown
/// there, at the workspaces `left` and `taken`.
pub open spec fn exchanged(
    d: Dialogue,
    e: Dialogue,
    here: Screen,
    there: Screen,
    old: Seq<char>,
    set: Seq<char>,
    left: Seq<char>,
    taken: Seq<char>,
) -> bool {
    exists|d1: Dialogue, d2: Dialogue, d3: Dialogue, came: bool, gone: bool|
        #![trigger brought(d, d1, set, here.name, came), brought(d1, d2, old, there.name, gone), commanded(d2, d3, show_command(there.name, left))]
        {
            &&& brought(d, d1, set, here.name, came)
            &&& brought(d1, d2, old, there.name, gone)
            &&& commanded(d2, d3, show_command(there.name, left))
            &&& commanded(d3, e, show_command(here.name, taken))
        }
}

proof fn lemma_exchanged(
    here: Screen,
    there: Screen,
    old: Seq<char>,
    set: Seq<char>,
    leaving: Option<Seq<char>>,
    arriving: Option<Seq<char>>,
    d: Dialogue,
)
    requires
        d.answered(),
        exchange_program(here, there, old, set, leaving, arriving)(d).1 is Ok,
    ensures
        exchanged(
            d,
            exchange_program(here, there, old, set, leaving, arriving)(d).0,
            here,
            there,
            old,
            set,
            visible_or_home_named(here.visible, leaving, old),
            visible_or_home_named(there.visible, arriving, set),
        ),
{
    let e = exchange_program(here, there, old, set, leaving, arriving)(d).0;
    let left = visible_or_home_named(here.visible, leaving, old);
    let taken = visible_or_home_named(there.visible, arriving, set);
    let (d1, r1) = bring_program(set, here)(d);
    lemma_bring_steady(set, here);
    lemma_grows(bring_program(set, here), d);
    law_bringing_thaws_and_moves(set, here, d, r1->Ok_0);
    let (d2, r2) = bring_program(old, there)(d1);
    lemma_bring_steady(old, there);
    lemma_grows(bring_program(old, there), d1);
    law_bringing_thaws_and_moves(old, there, d1, r2->Ok_0);
    let d3 = show_program(there, left)(d2).0;
    lemma_commanded(d2, d3, show_command(there.name, left));
    lemma_commanded(d3, e, show_command(here.name, taken));
    assert(brought(d, d1, set, here.name, r1->Ok_0));
    assert(brought(d1, d2, old, there.name, r2->Ok_0));
    assert(commanded(d2, d3, show_command(there.name, left)));
}

pub proof fn lemma_swapped(
    display: Display,
    here: Screen,
    there: Screen,
    monitor: Seq<char>,
    old: Seq<char>,
    set: Seq<char>,
    d: Dialogue,
)
    requires
        d.answered(),
        monitor_by_id(display.monitors, monitor) == Some(there),
        swap_program(display, here, monitor, old, set)(d).1 is Ok,
    ensures
        swapped(d, swap_program(display, here, monitor, old, set)(d).0, display, here, there, old, set),
{
    let e = swap_program(display, here, monitor, old, set)(d).0;
    let shown = assigned(assigned(display.shown, here.id, set), there.id, old);
    let write = Ask::Write(File::Assignments, object_text(shown));
    let d1 = save_assignments_program(shown)(d).0;
    assert(d.asked.push(write) == d.asked + seq![write]);
    let d2 = remember_workspace_program(old, here.visible)(d1).0;
    lemma_remember_workspace_steady(old, here.visible);
    lemma_grows(remember_workspace_program(old, here.visible), d1);
    lemma_remembered(d1, d2, old, here.visible);
    let d3 = remember_workspace_program(set, there.visible)(d2).0;
    lemma_remember_workspace_steady(set, there.visible);
    lemma_grows(remember_workspace_program(set, there.visible), d2);
    lemma_remembered(d2, d3, set, there.visible);
    let (d4, r4) = last_workspace_program(old)(d3);
    lemma_recalled(d3, d4, old, r4->Ok_0);
    let (d5, r5) = last_workspace_program(set)(d4);
    lemma_recalled(d4, d5, set, r5->Ok_0);
    lemma_exchanged(here, there, old, set, r4->Ok_0, r5->Ok_0, d5);
    assert(remembered(d1, d2, old, here.visible));
    assert(remembered(d2, d3, set, there.visible));
    assert(recalled(d3, d4, old, r4->Ok_0));
    assert(recalled(d4, d5, set, r5->Ok_0));
}

/// The name of the workspace of a set that a key reaches: the key in upper
/// case, and the set in brackets.
pub open spec fn reached(key: char, set: Seq<char>) -> Seq<char> {
    seq![upper(key)] + seq!['('] + set + seq![')']
}

pub proof fn lemma_reached(key: char, set: Seq<char>)
    ensures
        workspace_named(key, set) == reached(key, set),
{
    assert(workspace_named(key, set) == reached(key, set));
}

/// Whether a pinned window was carried to its key in a set: it was looked who
/// holds the top-left slot there, the window was moved there, and then swapped
/// with the one that held it.
pub open spec fn placed(d: Dialogue, e: Dialogue, pin: Pin, set: Seq<char>) -> bool {
    let workspace = reached(pin.key, set);
    let carry = Ask::Run(carry_command(pin.con_id, workspace));
    &&& reply(d, 0) matches Reply::Tree(tree)
    &&& succeeded(reply(d, 1))
    &&& if holds_the_slot(tree, workspace, pin.con_id) {
        went_on(d, e, seq![Ask::Tree, carry])
    } else {
        let node = named_workspace(tree, workspace)->0;
        let id = tiled_window(node)->0;
        &&& went_on(d, e, seq![Ask::Tree, carry, Ask::Run(swap_command(pin.con_id, id))])
        &&& succeeded(reply(d, 2))
    }
}

/// Whether no other window than this one holds the top-left slot of a
/// workspace: there is no such workspace, or it has no tiled window, or this
/// one holds it.
pub open spec fn holds_the_slot(tree: Node, workspace: Seq<char>, con_id: i64) -> bool {
    ||| named_workspace(tree, workspace) is None
    ||| tiled_window(named_workspace(tree, workspace)->0) is None
    ||| tiled_window(named_workspace(tree, workspace)->0) == Some(con_id)
}

pub proof fn lemma_placed(d: Dialogue, e: Dialogue, pin: Pin, set: Seq<char>)
    requires
        d.answered(),
    ensures
        place_pin_program(pin, set)(d) == (e, Ok::<(), Halt>(())) <==> placed(d, e, pin, set),
{
    let workspace = workspace_named(pin.key, set);
    lemma_reached(pin.key, set);
    let carry = Ask::Run(carry_command(pin.con_id, workspace));
    assert(d.asked.push(Ask::Tree).push(carry) == d.asked + seq![Ask::Tree, carry]);
    if let Reply::Tree(tree) = reply(d, 0) {
        if let Some(id) = resident(tree, pin, workspace) {
            let swap = Ask::Run(swap_command(pin.con_id, id));
            assert(d.asked.push(Ask::Tree).push(carry).push(swap) == d.asked + seq![
                Ask::Tree,
                carry,
                swap,
            ]);
        }
    }
}

/// Whether pinned windows were carried to their keys, the last of them first:
/// `stops` are the dialogue before and after each.
pub open spec fn all_placed(
    d: Dialogue,
    e: Dialogue,
    pins: Seq<Pin>,
    set: Seq<char>,
    stops: Seq<Dialogue>,
) -> bool {
    &&& stops.len() == pins.len() + 1
    &&& stops[0] == d
    &&& stops.last() == e
    &&& forall|k: int|
        0 <= k < pins.len() ==> #[trigger] placed(
            stops[k],
            stops[k + 1],
            pins[pins.len() - 1 - k],
            set,
        )
}

proof fn lemma_all_placed(pins: Seq<Pin>, set: Seq<char>, d: Dialogue) -> (stops: Seq<Dialogue>)
    requires
        d.answered(),
        place_pins_program(pins, set)(d).1 is Ok,
    ensures
        all_placed(d, place_pins_program(pins, set)(d).0, pins, set, stops),
    decreases pins.len(),
{
    if pins.len() == 0 {
        seq![d]
    } else {
        let front = pins.drop_last();
        let d1 = place_pin_program(pins.last(), set)(d).0;
        lemma_place_pin_steady(pins.last(), set);
        lemma_grows(place_pin_program(pins.last(), set), d);
        lemma_placed(d, d1, pins.last(), set);
        let rest = lemma_all_placed(front, set, d1);
        let stops = seq![d] + rest;
        assert forall|k: int| 0 <= k < pins.len() implies #[trigger] placed(
            stops[k],
            stops[k + 1],
            pins[pins.len() - 1 - k],
            set,
        ) by {
            if k > 0 {
                let j = k - 1;
                assert(placed(rest[j], rest[j + 1], front[front.len() - 1 - j], set));
                assert(stops[k] == rest[j]);
            }
        }
        assert(stops.last() == rest.last());
        stops
    }
}

/// Whether the pinned windows were carried along to a set: the pins of closed
/// windows were dropped, and all others carried, the first of them last.
pub open spec fn carried_along(d: Dialogue, e: Dialogue, set: Seq<char>) -> bool {
    exists|m: Dialogue, alive: Seq<Pin>, stops: Seq<Dialogue>|
        {
            &&& pins_in(reply(d, 0)) matches Some(pins)
            &&& reply(d, 1) matches Reply::Tree(tree)
            &&& alive == pins.filter(|pin: Pin| live_ids(tree).contains(pin.con_id))
            &&& if alive.len() == pins.len() {
                went_on(d, m, seq![Ask::ReadPins, Ask::Tree])
            } else {
                &&& went_on(d, m, seq![Ask::ReadPins, Ask::Tree, Ask::WritePins(alive)])
                &&& reply(d, 2) is Done
            }
            &&& #[trigger] all_placed(m, e, alive, set, stops)
        }
}

/// Carrying the pinned windows along to a set carries every one that is open,
/// and no other, to its key there.
pub proof fn law_carrying_places_every_open_pinned_window(set: Seq<char>, d: Dialogue)
    requires
        d.answered(),
        carry_pins_program(set)(d).1 is Ok,
    ensures
        carried_along(d, carry_pins_program(set)(d).0, set),
{
    let (d1, r1) = pins_program()(d);
    let (d2, r2) = tree_program()(d1);
    let pins = r1->Ok_0;
    let tree = r2->Ok_0;
    let kept = live_pins(pins, live_ids(tree));
    let f = |pin: Pin| live_ids(tree).contains(pin.con_id);
    assert(kept == pins.filter(f));
    let m = if kept.len() != pins.len() {
        save_pins_program(kept)(d2).0
    } else {
        d2
    };
    assert(d.asked.push(Ask::ReadPins).push(Ask::Tree) == d.asked + seq![Ask::ReadPins, Ask::Tree]);
    let write = Ask::WritePins(kept);
    assert(d.asked.push(Ask::ReadPins).push(Ask::Tree).push(write) == d.asked + seq![
        Ask::ReadPins,
        Ask::Tree,
        write,
    ]);
    let stops = lemma_all_placed(kept, set, m);
    assert(all_placed(m, carry_pins_program(set)(d).0, kept, set, stops));
}

/// Whether a set was picked for the focused monitor: its set was settled, the
/// new one recorded as used; then nothing was done where that is the set
/// shown, the sets were exchanged where another monitor shows it, or the old
/// set was replaced; and the pinned windows were carried along.
pub open spec fn picked(d: Dialogue, e: Dialogue, set: Seq<char>) -> bool {
    exists|
        d1: Dialogue,
        current: Seq<char>,
        d2: Dialogue,
        display: Display,
        d3: Dialogue,
        d4: Dialogue,
    |
        #![trigger settled_on(d, d1, current), looked(d1, d2, display), used(d2, d3, set), carried_along(d4, e, set)]
        {
            &&& settled_on(d, d1, current)
            &&& looked(d1, d2, display)
            &&& focused_monitor(display.monitors) matches Some(here)
            &&& used(d2, d3, set)
            &&& match planned(display.shown, here.id, current, set, ids_of(display.monitors)) {
                Planned::Unchanged => d4 == d3,
                Planned::Swap { monitor, old } => {
                    &&& monitor_by_id(display.monitors, monitor) matches Some(there)
                    &&& swapped(d3, d4, display, here, there, old, set)
                },
                Planned::Replace { old } => replaced(d3, d4, display, here, old, set),
            }
            &&& carried_along(d4, e, set)
        }
}

/// Picking a set does what is said of it: see `picked`.
pub proof fn law_picking_a_set(set: Seq<char>, d: Dialogue)
    requires
        d.answered(),
        change_set_program(set)(d).1 is Ok,
    ensures
        picked(d, change_set_program(set)(d).0, set),
{
    let e = change_set_program(set)(d).0;
    let (d1, r1) = ensure_set_program()(d);
    let current = r1->Ok_0;
    lemma_ensure_set_steady();
    lemma_grows(ensure_set_program(), d);
    law_focused_monitor_keeps_its_set(d, current);
    let (d2, r2) = load_program()(d1);
    let display = r2->Ok_0;
    lemma_looked(d1, d2, display);
    let here = focused_monitor(display.monitors)->0;
    let d3 = touch_set_program(set)(d2).0;
    lemma_used(d2, d3, set);
    let plan = planned(display.shown, here.id, current, set, ids_of(display.monitors));
    let d4 = carry_out_program(display, here, set, plan)(d3).0;
    lemma_carry_out_steady(display, here, set, plan);
    lemma_grows(carry_out_program(display, here, set, plan), d3);
    match plan {
        Planned::Unchanged => {},
        Planned::Swap { monitor, old } => {
            let there = monitor_by_id(display.monitors, monitor)->0;
            lemma_swapped(display, here, there, monitor, old, set, d3);
        },
        Planned::Replace { old } => {
            lemma_replaced(display, here, old, set, d3);
        },
    }
    law_carrying_places_every_open_pinned_window(set, d4);
    assert(settled_on(d, d1, current));
    assert(looked(d1, d2, display));
    assert(used(d2, d3, set));
    assert(carried_along(d4, e, set));
}

/// Whether the sets that nothing is left in were dropped: `sets` are the known
/// ones that a monitor shows, that are frozen or that have a workspace.
pub open spec fn pruned(d: Dialogue, e: Dialogue, sets: Seq<Seq<char>>) -> bool {
    exists|m: Dialogue, display: Display|
        {
            &&& #[trigger] looked(d, m, display)
            &&& reply(m, 0) matches Reply::Workspaces(workspaces)
            &&& sets_in(reply(m, 1)) matches Some(known)
            &&& iced_in(reply(m, 2)) matches Some(iced)
            &&& sets == known.filter(
                |set: Seq<char>|
                    {
                        ||| exists|i: int|
                            0 <= i < display.monitors.len() && display.shown.get(
                                (#[trigger] display.monitors[i]).id,
                            ) == Some(set)
                        ||| iced.contains(set)
                        ||| exists|i: int|
                            0 <= i < workspaces@.len() && belongs(
                                (#[trigger] workspaces@[i]).name@,
                                set,
                            )
                    },
            )
            &&& reply(m, 3) is Done
            &&& last_in(reply(m, 4)) matches Some(last)
            &&& reply(m, 5) is Done
            &&& went_on(
                m,
                e,
                seq![
                    Ask::Workspaces,
                    Ask::Read(File::Sets),
                    Ask::ListIced,
                    Ask::Write(File::Sets, list_text(sets)),
                    Ask::Read(File::Last),
                    Ask::Write(File::Last, object_text(only_keys(last, sets))),
                ],
            )
        }
}

proof fn lemma_shown_sets(monitors: Seq<Screen>, shown: TextMap, set: Seq<char>)
    ensures
        shown_sets(monitors, shown).contains(set) <==> exists|i: int|
            0 <= i < monitors.len() && shown.get((#[trigger] monitors[i]).id) == Some(set),
    decreases monitors.len(),
{
    if monitors.len() > 0 {
        let front = monitors.drop_last();
        let last = monitors.last();
        lemma_shown_sets(front, shown, set);
        let some = shown_sets(front, shown);
        if shown_sets(front, shown).contains(set) {
            let i = choose|i: int|
                0 <= i < front.len() && shown.get((#[trigger] front[i]).id) == Some(set);
            assert(monitors[i] == front[i]);
            let k = some.index_of(set);
            assert(shown_sets(monitors, shown)[k] == set);
        }
        if shown.get(last.id) == Some(set) {
            assert(monitors[monitors.len() - 1] == last);
            assert(shown_sets(monitors, shown)[some.len() as int] == set);
        }
        if exists|i: int|
            0 <= i < monitors.len() && shown.get((#[trigger] monitors[i]).id) == Some(set) {
            let i = choose|i: int|
                0 <= i < monitors.len() && shown.get((#[trigger] monitors[i]).id) == Some(set);
            if i < front.len() {
                assert(front[i] == monitors[i]);
            }
        }
        if shown_sets(monitors, shown).contains(set) && !some.contains(set) {
            let k = shown_sets(monitors, shown).index_of(set);
            if k < some.len() {
                assert(some[k] == set);
            }
        }
    }
}

/// Pruning keeps exactly the known sets that there is something to go back to.
pub proof fn law_pruning_drops_what_nothing_is_left_in(d: Dialogue, sets: Seq<Seq<char>>)
    requires
        d.answered(),
        prune_sets_program()(d).1 == Ok::<Seq<Seq<char>>, Halt>(sets),
    ensures
        pruned(d, prune_sets_program()(d).0, sets),
{
    let e = prune_sets_program()(d).0;
    let (m, r) = load_program()(d);
    let display = r->Ok_0;
    lemma_looked(d, m, display);
    let (m1, r1) = workspaces_program()(m);
    let workspaces = r1->Ok_0;
    let (m2, r2) = list_sets_program()(m1);
    let known = r2->Ok_0;
    let (m3, r3) = list_iced_program()(m2);
    let iced = r3->Ok_0;
    if let Reply::Names(names) = reply(m, 2) {
        assert(stems(views(names@)) == iced_in(reply(m, 2))->0);
    }
    let names = names_of(workspaces);
    let shown = shown_sets(display.monitors, display.shown);
    let f = |set: Seq<char>| is_live(set, names, iced, shown);
    let g = |set: Seq<char>|
        {
            ||| exists|i: int|
                0 <= i < display.monitors.len() && display.shown.get(
                    (#[trigger] display.monitors[i]).id,
                ) == Some(set)
            ||| iced.contains(set)
            ||| exists|i: int|
                0 <= i < workspaces.len() && belongs((#[trigger] workspaces[i]).name@, set)
        };
    assert forall|set: Seq<char>| f(set) == #[trigger] g(set) by {
        lemma_shown_sets(display.monitors, display.shown, set);
        if exists|i: int|
            0 <= i < workspaces.len() && belongs((#[trigger] workspaces[i]).name@, set) {
            let i = choose|i: int|
                0 <= i < workspaces.len() && belongs((#[trigger] workspaces[i]).name@, set);
            assert(belongs(names[i], set));
        }
        if exists|i: int| 0 <= i < names.len() && belongs(#[trigger] names[i], set) {
            let i = choose|i: int| 0 <= i < names.len() && belongs(#[trigger] names[i], set);
            assert(belongs(workspaces[i].name@, set));
        }
    }
    assert(f =~= g);
    assert(sets == known.filter(g));
    let last = last_in(reply(m, 4))->0;
    let requests = seq![
        Ask::Workspaces,
        Ask::Read(File::Sets),
        Ask::ListIced,
        Ask::Write(File::Sets, list_text(sets)),
        Ask::Read(File::Last),
        Ask::Write(File::Last, object_text(only_keys(last, sets))),
    ];
    assert(keep_sets_program(sets)(m3) == (e, Ok::<Seq<Seq<char>>, Halt>(sets)));
    assert(e.asked == m.asked + requests);
    assert(looked(d, m, display));
}

/// Whether the user was let choose one of the options, each on a line of its
/// own; what they chose is the line without the white space around it.
pub open spec fn selected(
    d: Dialogue,
    e: Dialogue,
    prompt: Seq<char>,
    options: Seq<Seq<char>>,
    choice: Option<Seq<char>>,
) -> bool {
    &&& went_on(d, e, seq![Ask::Select { prompt, options: joined(options, "\n"@) }])
    &&& reply(d, 0) matches Reply::Text(text)
    &&& choice == chosen(text@)
}

pub proof fn lemma_selected(
    d: Dialogue,
    e: Dialogue,
    prompt: Seq<char>,
    options: Seq<Seq<char>>,
    choice: Option<Seq<char>>,
)
    requires
        d.answered(),
    ensures
        select_program(prompt, options)(d) == (e, Ok::<Option<Seq<char>>, Halt>(choice))
            <==> selected(d, e, prompt, options, choice),
{
    let request = Ask::Select { prompt, options: joined(options, "\n"@) };
    assert(d.asked.push(request) == d.asked + seq![request]);
}

} // verus!
