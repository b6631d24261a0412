//! What the commands do, told in full: for each command that is carried out,
//! the requests made one after another, and how they follow from what was
//! told.

use crate::account::{
    carried_along, commanded, froze, iced_in, law_carrying_places_every_open_pinned_window,
    law_focused_monitor_keeps_its_set, law_picking_a_set, law_pruning_drops_what_nothing_is_left_in,
    lemma_commanded, lemma_froze, lemma_looked, lemma_reached, lemma_selected, lemma_used, looked,
    once_asked, picked, pins_in, pruned, reached, reply, selected, sets_in, settled_on, used,
    went_on,
};
use crate::assignments::resolved;
use crate::carrying::lemma_grows;
use crate::change::{carry_pins_program, ensure_set_program, prune_sets_program};
use crate::command::{
    deliver_program, deliver_snapshot_program, deliver_to_program, focused_snapshot,
    ice_menu_program, move_to_set_program, obey_program, pin_key, pin_program, print_all_program,
    set_menu_program, set_or_current_program, thaw_or_say_program, Intent,
};
use crate::dialogue::{order_program, tell, Ask, Dialogue, File, Halt, Reply};
use crate::freeze::{ice_set_program, restore_all_program, thaw_set_program};
use crate::parking::{law_delivering_moves_or_stores_every_window, lemma_restore_all, moves};
use crate::pins::{pinned_windows, unpinned_from, Pin};
use crate::resume::{
    lemma_carry_pins_steady, lemma_current_set_steady, lemma_deliver_snapshot_steady,
    lemma_deliver_to_steady, lemma_ensure_set_steady, lemma_ice_set_steady, lemma_prune_sets_steady,
    lemma_set_or_current_steady, lemma_thaw_set_steady, lemma_touch_set_steady,
};
use crate::screens::{current_set_program, focused_monitor, ids_of, load_program, Display};
use crate::sets::{ice_name, other_than, stems};
use crate::snapshot::{all_ids, shots, spliced, Snapshot};
use crate::state::{
    get_pending_target_program, list_iced_program, load_ice_program, pins_program,
    save_pins_program, select_program, touch_set_program, tree_program,
};
use crate::sway::{
    delivered_notice, iced_notice, not_iced_notice, not_thawed_notice, pinned_notice, send_command,
    switch_command, thawed_notice,
};
use crate::text::{trimmed, upper, views};
use crate::thawing::{
    all_reopened, law_thawing_reopens_every_workspace_as_it_was, lemma_all_reopened, thawed,
};
use crate::tree::{focused_window, focused_workspace, snapshot_of, Node};
use crate::workspace::{key_of, PARKING_WORKSPACE};
use vstd::prelude::*;

verus! {

/// Whether the user was told something, whether it reached them or not.
pub open spec fn told(d: Dialogue, e: Dialogue, message: Seq<char>) -> bool {
    went_on(d, e, seq![Ask::Notify(message)])
}

/// Whether a command was given that reached sway.
pub open spec fn ordered(d: Dialogue, e: Dialogue, command: Seq<char>) -> bool {
    went_on(d, e, seq![Ask::Run(command)]) && reply(d, 0) is Ran
}

/// Whether it was looked up which set the focused monitor shows: the one that
/// it is assigned, whatever sets are known; only a monitor that is assigned
/// none is taken to show one that is free. Nothing was changed.
pub open spec fn looked_up(d: Dialogue, e: Dialogue, set: Seq<char>) -> bool {
    exists|m: Dialogue, display: Display|
        {
            &&& #[trigger] looked(d, m, display)
            &&& focused_monitor(display.monitors) matches Some(here)
            &&& went_on(m, e, seq![Ask::Read(File::Sets)])
            &&& sets_in(reply(m, 0)) matches Some(known)
            &&& match display.shown.get(here.id) {
                Some(shown) => set == shown,
                None => set == resolved(display.shown, here.id, ids_of(display.monitors), known),
            }
        }
}

proof fn lemma_looked_up(d: Dialogue, set: Seq<char>)
    requires
        d.answered(),
        current_set_program()(d).1 == Ok::<Seq<char>, Halt>(set),
    ensures
        looked_up(d, current_set_program()(d).0, set),
{
    let (m, r) = load_program()(d);
    let display = r->Ok_0;
    lemma_looked(d, m, display);
    let read = Ask::Read(File::Sets);
    assert(m.asked.push(read) == m.asked + seq![read]);
    assert(looked(d, m, display));
}

/// Whether `set` is the one given or, where none is, the one that the focused
/// monitor shows.
pub open spec fn meant(
    d: Dialogue,
    e: Dialogue,
    given: Option<Seq<char>>,
    set: Seq<char>,
) -> bool {
    match given {
        Some(given) => set == given && e == d,
        None => looked_up(d, e, set),
    }
}

/// Whether thawing a set failed: it could not be read, or what is stored could
/// not be removed once its workspaces were reopened.
pub open spec fn not_thawed(d: Dialogue, e: Dialogue, set: Seq<char>) -> bool {
    let read = once_asked(d, Ask::ReadIce(ice_name(set)));
    match reply(d, 0) {
        Reply::Snapshots(stored) => exists|m: Dialogue, stops: Seq<Dialogue>|
            {
                &&& #[trigger] all_reopened(read, m, shots(stored@), stops)
                &&& went_on(m, e, seq![Ask::RemoveIce(ice_name(set))])
                &&& !(reply(m, 0) is Done)
            },
        _ => went_on(d, e, seq![Ask::ReadIce(ice_name(set))]),
    }
}

/// Whether a set was thawed and the user told how many windows came back; or
/// that failed, and they were told otherwise.
pub open spec fn thawed_or_told(
    d: Dialogue,
    e: Dialogue,
    set: Seq<char>,
    otherwise: Seq<char>,
) -> bool {
    ||| exists|m: Dialogue, restored: nat, total: nat|
        {
            &&& #[trigger] thawed(d, m, set, restored, total)
            &&& told(m, e, thawed_notice(set, restored, total))
        }
    ||| exists|m: Dialogue| #[trigger] not_thawed(d, m, set) && told(m, e, otherwise)
}

proof fn lemma_told(d: Dialogue, e: Dialogue, message: Seq<char>)
    requires
        d.answered(),
        tell(Ask::Notify(message))(d) == (e, Ok::<(), Halt>(())),
    ensures
        told(d, e, message),
{
    let request = Ask::Notify(message);
    assert(d.asked.push(request) == d.asked + seq![request]);
}

proof fn lemma_ordered(d: Dialogue, e: Dialogue, command: Seq<char>)
    requires
        d.answered(),
        order_program(command)(d) == (e, Ok::<(), Halt>(())),
    ensures
        ordered(d, e, command),
{
    let request = Ask::Run(command);
    assert(d.asked.push(request) == d.asked + seq![request]);
}

proof fn lemma_not_thawed(set: Seq<char>, d: Dialogue)
    requires
        d.answered(),
        thaw_set_program(set)(d).1 matches Err(Halt::Failed(_)),
    ensures
        not_thawed(d, thaw_set_program(set)(d).0, set),
        thaw_set_program(set)(d).0.answered(),
{
    let e = thaw_set_program(set)(d).0;
    let (d1, r1) = load_ice_program(set)(d);
    let read = Ask::ReadIce(ice_name(set));
    assert(d.asked.push(read) == d.asked + seq![read]);
    if r1 is Ok {
        let snapshots = r1->Ok_0;
        lemma_restore_all(snapshots, d1);
        let m = restore_all_program(snapshots)(d1).0;
        let stops = lemma_all_reopened(snapshots, d1);
        let remove = Ask::RemoveIce(ice_name(set));
        assert(m.asked.push(remove) == m.asked + seq![remove]);
        assert(d1 == once_asked(d, read));
        assert(all_reopened(d1, m, snapshots, stops));
    }
}

proof fn lemma_thawed_or_told(set: Seq<char>, otherwise: Seq<char>, d: Dialogue)
    requires
        d.answered(),
        thaw_or_say_program(set, otherwise)(d).1 is Ok,
    ensures
        thawed_or_told(d, thaw_or_say_program(set, otherwise)(d).0, set, otherwise),
{
    let e = thaw_or_say_program(set, otherwise)(d).0;
    let (m, r) = thaw_set_program(set)(d);
    lemma_thaw_set_steady(set);
    lemma_grows(thaw_set_program(set), d);
    match r {
        Ok((restored, total)) => {
            law_thawing_reopens_every_workspace_as_it_was(set, d, restored, total);
            lemma_told(m, e, thawed_notice(set, restored, total));
            assert(thawed(d, m, set, restored, total));
        },
        Err(Halt::Failed(_)) => {
            lemma_not_thawed(set, d);
            lemma_told(m, e, otherwise);
            assert(not_thawed(d, m, set));
        },
        Err(Halt::Waiting) => {},
    }
}

/// Whether windows were delivered to a workspace of a set: moved there; or,
/// where the set is frozen, added to what is stored of it and parked. The user
/// was told how many.
pub open spec fn delivered(
    d: Dialogue,
    e: Dialogue,
    snapshot: Snapshot,
    set: Seq<char>,
    workspace: Seq<char>,
) -> bool {
    let ids = all_ids(snapshot.tree);
    &&& iced_in(reply(d, 0)) matches Some(iced)
    &&& if iced.contains(set) {
        &&& reply(d, 1) matches Reply::Snapshots(stored)
        &&& reply(d, 2) is Done
        &&& went_on(
            d,
            e,
            (seq![
                Ask::ListIced,
                Ask::ReadIce(ice_name(set)),
                Ask::WriteIce(
                    ice_name(set),
                    spliced(shots(stored@), workspace, snapshot.layout, snapshot.tree),
                ),
            ] + moves(ids, PARKING_WORKSPACE@)).push(
                Ask::Notify(delivered_notice(ids.len(), workspace, true)),
            ),
        )
    } else {
        went_on(
            d,
            e,
            (seq![Ask::ListIced] + moves(ids, workspace)).push(
                Ask::Notify(delivered_notice(ids.len(), workspace, false)),
            ),
        )
    }
}

/// Delivering a snapshot does what is said of it: see `delivered`.
pub proof fn lemma_delivered(
    snapshot: Snapshot,
    set: Seq<char>,
    workspace: Seq<char>,
    d: Dialogue,
)
    requires
        d.answered(),
        deliver_snapshot_program(snapshot, set, workspace)(d).1 is Ok,
    ensures
        delivered(
            d,
            deliver_snapshot_program(snapshot, set, workspace)(d).0,
            snapshot,
            set,
            workspace,
        ),
{
    let e = deliver_snapshot_program(snapshot, set, workspace)(d).0;
    lemma_deliver_snapshot_steady(snapshot, set, workspace);
    lemma_grows(deliver_snapshot_program(snapshot, set, workspace), d);
    let ids = all_ids(snapshot.tree);
    assert(ids.take(ids.len() as int) == ids);
    let (d1, r1) = list_iced_program()(d);
    let iced = r1->Ok_0;
    if let Reply::Names(names) = reply(d, 0) {
        assert(stems(views(names@)) == iced_in(reply(d, 0))->0);
    }
    assert(iced_in(reply(d, 0)) == Some(iced));
    law_delivering_moves_or_stores_every_window(snapshot, set, workspace, d);
    if iced.contains(set) {
        let (d2, r2) = load_ice_program(set)(d1);
        let stored = r2->Ok_0;
        let all = spliced(stored, workspace, snapshot.layout, snapshot.tree);
        let notice = Ask::Notify(delivered_notice(ids.len(), workspace, true));
        let requests = (seq![
            Ask::ListIced,
            Ask::ReadIce(ice_name(set)),
            Ask::WriteIce(ice_name(set), all),
        ] + moves(ids, PARKING_WORKSPACE@)).push(notice);
        assert(e.asked == d.asked + requests);
    } else {
        let notice = Ask::Notify(delivered_notice(ids.len(), workspace, false));
        let requests = (seq![Ask::ListIced] + moves(ids, workspace)).push(notice);
        assert(e.asked == d.asked + requests);
    }
}

/// Whether the windows of the focused workspace were delivered to the set that
/// was chosen for them, if one was, and the choice forgotten; the deliver mode
/// was left in any case.
pub open spec fn delivered_all(d: Dialogue, e: Dialogue, key: char) -> bool {
    exists|m: Dialogue|
        {
            &&& #[trigger] ordered(m, e, "mode default"@)
            &&& match reply(d, 0) {
                Reply::Text(text) => {
                    let set = trimmed(text@);
                    &&& reply(d, 1) matches Reply::Tree(tree)
                    &&& delivered_from(d, m, tree, key, set)
                },
                Reply::Missing => went_on(
                    d,
                    m,
                    seq![Ask::Read(File::Pending), Ask::Notify("No pending move target"@)],
                ),
                Reply::Failed => went_on(
                    d,
                    m,
                    seq![Ask::Read(File::Pending), Ask::Notify("No pending move target"@)],
                ),
                _ => false,
            }
        }
}

/// Whether the windows of the focused workspace of a tree, if it has any, were
/// delivered to the workspace of a set that a key reaches, and the choice of
/// the set forgotten.
pub open spec fn delivered_from(
    d: Dialogue,
    e: Dialogue,
    tree: Node,
    key: char,
    set: Seq<char>,
) -> bool {
    let start = once_asked(once_asked(d, Ask::Read(File::Pending)), Ask::Tree);
    exists|m: Dialogue|
        {
            &&& #[trigger] went_on(m, e, seq![Ask::Remove(File::Pending)])
            &&& reply(m, 0) is Done
            &&& match focused_workspace(tree) {
                Some(node) => match snapshot_of(node) {
                    Some(snapshot) => delivered(start, m, snapshot, set, reached(key, set)),
                    None => m == start,
                },
                None => m == start,
            }
        }
}

proof fn lemma_delivered_all(key: char, d: Dialogue)
    requires
        d.answered(),
        deliver_program(key)(d).1 is Ok,
    ensures
        delivered_all(d, deliver_program(key)(d).0, key),
{
    let e = deliver_program(key)(d).0;
    let read = Ask::Read(File::Pending);
    let (d1, r1) = get_pending_target_program()(d);
    match r1->Ok_0 {
        Some(set) => {
            lemma_deliver_to_steady(set, key);
            lemma_grows(deliver_to_program(set, key), d1);
            let d2 = deliver_to_program(set, key)(d1).0;
            let (start, r3) = tree_program()(d1);
            let tree = r3->Ok_0;
            lemma_reached(key, set);
            if let Some(snapshot) = focused_snapshot(tree) {
                lemma_delivered(snapshot, set, reached(key, set), start);
            }
            let remove = Ask::Remove(File::Pending);
            let m = once_asked(d2, remove);
            assert(d2.asked.push(remove) == d2.asked + seq![remove]);
            assert(start == once_asked(once_asked(d, read), Ask::Tree));
            assert(went_on(d2, m, seq![remove]));
            lemma_ordered(m, e, "mode default"@);
            assert(delivered_from(d, m, tree, key, set));
        },
        None => {
            let notice = Ask::Notify("No pending move target"@);
            let m = once_asked(d1, notice);
            assert(m.asked == d.asked + seq![read, notice]);
            lemma_ordered(m, e, "mode default"@);
        },
    }
}

/// Whether the focused window was pinned to a key of the set: it is stored at
/// the end of the pins, after those of other windows, which stay as they were;
/// and the pinned windows were carried to the set.
pub open spec fn pinned(
    d: Dialogue,
    e: Dialogue,
    pins: Seq<Pin>,
    pin: Pin,
    set: Seq<char>,
) -> bool {
    let stored = pins.filter(|other: Pin| other.con_id != pin.con_id).push(pin);
    exists|m: Dialogue|
        {
            &&& reply(d, 0) is Done
            &&& #[trigger] carried_along(once_asked(d, Ask::WritePins(stored)), m, set)
            &&& told(m, e, "Pinned to "@ + seq![upper(pin.key)])
        }
}

/// Whether the focused window was released: only its pin is gone.
pub open spec fn released(d: Dialogue, e: Dialogue, pins: Seq<Pin>, con_id: i64) -> bool {
    let stored = pins.filter(|other: Pin| other.con_id != con_id);
    &&& went_on(d, e, seq![Ask::WritePins(stored), Ask::Notify("Unpinned"@)])
    &&& reply(d, 0) is Done
}

/// Whether a window is among the pinned ones.
pub open spec fn is_pinned(pins: Seq<Pin>, con_id: i64) -> bool {
    exists|i: int| 0 <= i < pins.len() && (#[trigger] pins[i]).con_id == con_id
}

/// Whether a window was pinned to a key: the one given, or that of the
/// workspace that has the focus; or, without a key, released if it was pinned.
pub open spec fn pinned_or_released(
    d: Dialogue,
    e: Dialogue,
    key: Option<char>,
    tree: Node,
    pins: Seq<Pin>,
    con_id: i64,
    set: Seq<char>,
) -> bool {
    match key {
        Some(key) => pinned(d, e, pins, Pin { con_id, key }, set),
        None => if is_pinned(pins, con_id) {
            released(d, e, pins, con_id)
        } else {
            &&& focused_workspace(tree) matches Some(node)
            &&& node.name matches Some(name)
            &&& key_of(name@, set) matches Some(key)
            &&& pinned(d, e, pins, Pin { con_id, key }, set)
        },
    }
}

/// Whether the focused window was pinned to a key of the focused monitor's
/// set, or released.
pub open spec fn focused_pinned(d: Dialogue, e: Dialogue, key: Option<char>) -> bool {
    exists|m: Dialogue, set: Seq<char>|
        {
            &&& #[trigger] settled_on(d, m, set)
            &&& reply(m, 0) matches Reply::Tree(tree)
            &&& pins_in(reply(m, 1)) matches Some(pins)
            &&& focused_window(tree) matches Some(con_id)
            &&& pinned_or_released(
                once_asked(once_asked(m, Ask::Tree), Ask::ReadPins),
                e,
                key,
                tree,
                pins,
                con_id,
                set,
            )
        }
}

proof fn lemma_pinned(key: Option<char>, d: Dialogue)
    requires
        d.answered(),
        pin_program(key)(d).1 is Ok,
    ensures
        focused_pinned(d, pin_program(key)(d).0, key),
{
    let e = pin_program(key)(d).0;
    let (m, r) = ensure_set_program()(d);
    let set = r->Ok_0;
    lemma_ensure_set_steady();
    lemma_grows(ensure_set_program(), d);
    law_focused_monitor_keeps_its_set(d, set);
    let (m1, r1) = tree_program()(m);
    let tree = r1->Ok_0;
    let con_id = focused_window(tree)->0;
    let (start, r2) = pins_program()(m1);
    let pins = r2->Ok_0;
    assert(start == once_asked(once_asked(m, Ask::Tree), Ask::ReadPins));
    assert(pinned_windows(pins).contains(con_id) <==> is_pinned(pins, con_id)) by {
        if pinned_windows(pins).contains(con_id) {
            let i = pinned_windows(pins).index_of(con_id);
            assert(pins[i].con_id == con_id);
        }
        if is_pinned(pins, con_id) {
            let i = choose|i: int| 0 <= i < pins.len() && (#[trigger] pins[i]).con_id == con_id;
            assert(pinned_windows(pins)[i] == con_id);
        }
    }
    let f = |other: Pin| other.con_id != con_id;
    let rest = pins.filter(f);
    assert(unpinned_from(pins, con_id) == rest);
    if key is None && pinned_windows(pins).contains(con_id) {
        let write = Ask::WritePins(rest);
        let notice = Ask::Notify("Unpinned"@);
        assert(start.asked.push(write).push(notice) == start.asked + seq![write, notice]);
        assert(released(start, e, pins, con_id));
    } else {
        let k = pin_key(key, tree, set)->0;
        let pin = Pin { con_id, key: k };
        let stored = rest.push(pin);
        let s = save_pins_program(stored)(start).0;
        assert(s == once_asked(start, Ask::WritePins(stored)));
        let n = carry_pins_program(set)(s).0;
        lemma_carry_pins_steady(set);
        lemma_grows(carry_pins_program(set), s);
        law_carrying_places_every_open_pinned_window(set, s);
        lemma_told(n, e, pinned_notice(upper(k)));
        assert(carried_along(s, n, set));
        assert(f =~= (|other: Pin| other.con_id != pin.con_id));
        assert(pinned(start, e, pins, pin, set));
    }
    assert(pinned_or_released(start, e, key, tree, pins, con_id, set));
    assert(settled_on(d, m, set));
}

/// Whether the pin of the focused window is gone, and no other.
pub open spec fn unpinned(d: Dialogue, e: Dialogue) -> bool {
    &&& reply(d, 0) matches Reply::Tree(tree)
    &&& focused_window(tree) matches Some(con_id)
    &&& pins_in(reply(d, 1)) matches Some(pins)
    &&& went_on(
        d,
        e,
        seq![
            Ask::Tree,
            Ask::ReadPins,
            Ask::WritePins(pins.filter(|other: Pin| other.con_id != con_id)),
        ],
    )
    &&& reply(d, 2) is Done
}

/// Whether lines were printed, one after another.
pub open spec fn printed(d: Dialogue, e: Dialogue, lines: Seq<Seq<char>>) -> bool {
    &&& went_on(d, e, Seq::new(lines.len(), |i: int| Ask::Print(lines[i])))
    &&& forall|i: int| 0 <= i < lines.len() ==> #[trigger] reply(d, i) is Done
}

proof fn lemma_printed(lines: Seq<Seq<char>>, d: Dialogue)
    requires
        d.answered(),
        print_all_program(lines)(d).1 is Ok,
    ensures
        printed(d, print_all_program(lines)(d).0, lines),
    decreases lines.len(),
{
    let e = print_all_program(lines)(d).0;
    let requests = Seq::new(lines.len(), |i: int| Ask::Print(lines[i]));
    if lines.len() == 0 {
        assert(d.asked + requests == d.asked);
    } else {
        let front = lines.drop_last();
        let some = Seq::new(front.len(), |i: int| Ask::Print(front[i]));
        lemma_printed(front, d);
        let d1 = print_all_program(front)(d).0;
        assert(requests == some.push(Ask::Print(lines.last())));
        assert(e.asked == d.asked + requests);
        assert forall|i: int| 0 <= i < lines.len() implies #[trigger] reply(d, i) is Done by {
            if i == front.len() {
                assert(reply(d, i) == reply(d1, 0));
            }
        }
    }
}

/// Whether a set was chosen to deliver windows to: the user chose among the
/// sets that there is something in, and the choice was recorded as used and
/// stored, and the deliver mode entered; or they chose none.
pub open spec fn target_chosen(d: Dialogue, e: Dialogue) -> bool {
    exists|d1: Dialogue, sets: Seq<Seq<char>>, d2: Dialogue, choice: Option<Seq<char>>|
        #![trigger pruned(d, d1, sets), selected(d1, d2, "Move to set"@, sets, choice)]
        {
            &&& pruned(d, d1, sets)
            &&& selected(d1, d2, "Move to set"@, sets, choice)
            &&& match choice {
                Some(set) => target_stored(d2, e, set),
                None => e == d2,
            }
        }
}

/// Whether a set was recorded as used and as the one to deliver to, and the
/// deliver mode entered.
pub open spec fn target_stored(d: Dialogue, e: Dialogue, set: Seq<char>) -> bool {
    exists|m: Dialogue|
        {
            &&& #[trigger] used(d, m, set)
            &&& went_on(
                m,
                e,
                seq![Ask::Write(File::Pending, set), Ask::Run("mode deliver"@)],
            )
            &&& reply(m, 0) is Done
            &&& reply(m, 1) is Ran
        }
}

/// The test for sets besides one.
pub open spec fn besides(set: Seq<char>) -> spec_fn(Seq<char>) -> bool {
    |other: Seq<char>| other != set
}

/// Whether the user was let choose the set to show, among those that there is
/// something in but for the one shown; and the one that they chose was picked.
pub open spec fn set_chosen(d: Dialogue, e: Dialogue) -> bool {
    exists|
        d1: Dialogue,
        current: Seq<char>,
        d2: Dialogue,
        sets: Seq<Seq<char>>,
        d3: Dialogue,
        choice: Option<Seq<char>>,
    |
        #![trigger settled_on(d, d1, current), pruned(d1, d2, sets), selected(d2, d3, "Space set"@, sets.filter(besides(current)), choice)]
        {
            &&& settled_on(d, d1, current)
            &&& pruned(d1, d2, sets)
            &&& selected(d2, d3, "Space set"@, sets.filter(besides(current)), choice)
            &&& match choice {
                Some(set) => picked(d3, e, set),
                None => e == d3,
            }
        }
}

/// Whether the user was let choose the frozen set to thaw, and the one that
/// they chose was; or they were told that none is frozen.
pub open spec fn thaw_chosen(d: Dialogue, e: Dialogue) -> bool {
    let m = once_asked(d, Ask::ListIced);
    &&& iced_in(reply(d, 0)) matches Some(iced)
    &&& if iced.len() == 0 {
        told(m, e, "No iced sets"@)
    } else {
        exists|m1: Dialogue, choice: Option<Seq<char>>|
            {
                &&& #[trigger] selected(m, m1, "Thaw set"@, iced, choice)
                &&& match choice {
                    Some(set) => thawed_or_told(m1, e, set, "Failed to thaw: "@ + set),
                    None => e == m1,
                }
            }
    }
}

/// Whether a command was carried out.
pub open spec fn obeyed(d: Dialogue, e: Dialogue, intent: Intent) -> bool {
    match intent {
        Intent::Switch { key } => exists|m: Dialogue, set: Seq<char>| #[trigger]
            settled_on(d, m, set) && commanded(m, e, switch_command(reached(key, set))),
        Intent::Move { key } => exists|m: Dialogue, set: Seq<char>| #[trigger]
            settled_on(d, m, set) && commanded(m, e, send_command(reached(key, set))),
        Intent::Show { name } => picked(d, e, name),
        Intent::SetMenu => set_chosen(d, e),
        Intent::Ice { set: given } => exists|m: Dialogue, n: Dialogue, set: Seq<char>, count: nat|
            #![trigger meant(d, m, given, set), froze(m, n, set, count)]
            {
                &&& meant(d, m, given, set)
                &&& froze(m, n, set, count)
                &&& told(n, e, iced_notice(set, count))
            },
        Intent::Thaw { set: given } => exists|m: Dialogue, set: Seq<char>|
            {
                &&& #[trigger] meant(d, m, given, set)
                &&& thawed_or_told(m, e, set, "No iced set: "@ + set)
            },
        Intent::IceMenu => thaw_chosen(d, e),
        Intent::MoveToSet => target_chosen(d, e),
        Intent::Deliver { key } => delivered_all(d, e, key),
        Intent::Pin { key } => focused_pinned(d, e, key),
        Intent::Unpin => unpinned(d, e),
        Intent::Current => exists|m: Dialogue, set: Seq<char>| #[trigger]
            looked_up(d, m, set) && printed(m, e, seq![set]),
        Intent::ListIced => {
            &&& iced_in(reply(d, 0)) matches Some(iced)
            &&& printed(once_asked(d, Ask::ListIced), e, iced)
        },
    }
}

proof fn lemma_set_chosen(d: Dialogue)
    requires
        d.answered(),
        set_menu_program()(d).1 is Ok,
    ensures
        set_chosen(d, set_menu_program()(d).0),
{
    let e = set_menu_program()(d).0;
    let (d1, r1) = ensure_set_program()(d);
    let current = r1->Ok_0;
    lemma_ensure_set_steady();
    lemma_grows(ensure_set_program(), d);
    law_focused_monitor_keeps_its_set(d, current);
    let (d2, r2) = prune_sets_program()(d1);
    let sets = r2->Ok_0;
    lemma_prune_sets_steady();
    lemma_grows(prune_sets_program(), d1);
    law_pruning_drops_what_nothing_is_left_in(d1, sets);
    assert(besides(current) =~= other_than(current));
    let offered = sets.filter(besides(current));
    let (d3, r3) = select_program("Space set"@, offered)(d2);
    let choice = r3->Ok_0;
    lemma_selected(d2, d3, "Space set"@, offered, choice);
    if let Some(set) = choice {
        law_picking_a_set(set, d3);
    }
    assert(settled_on(d, d1, current));
    assert(pruned(d1, d2, sets));
    assert(selected(d2, d3, "Space set"@, sets.filter(besides(current)), choice));
}

proof fn lemma_target_chosen(d: Dialogue)
    requires
        d.answered(),
        move_to_set_program()(d).1 is Ok,
    ensures
        target_chosen(d, move_to_set_program()(d).0),
{
    let e = move_to_set_program()(d).0;
    let (d1, r1) = prune_sets_program()(d);
    let sets = r1->Ok_0;
    lemma_prune_sets_steady();
    lemma_grows(prune_sets_program(), d);
    law_pruning_drops_what_nothing_is_left_in(d, sets);
    let (d2, r2) = select_program("Move to set"@, sets)(d1);
    let choice = r2->Ok_0;
    lemma_selected(d1, d2, "Move to set"@, sets, choice);
    if let Some(set) = choice {
        let m = touch_set_program(set)(d2).0;
        lemma_used(d2, m, set);
        lemma_touch_set_steady(set);
        lemma_grows(touch_set_program(set), d2);
        let write = Ask::Write(File::Pending, set);
        let run = Ask::Run("mode deliver"@);
        assert(m.asked.push(write).push(run) == m.asked + seq![write, run]);
        assert(used(d2, m, set));
    }
    assert(pruned(d, d1, sets));
    assert(selected(d1, d2, "Move to set"@, sets, choice));
}

proof fn lemma_thaw_chosen(d: Dialogue)
    requires
        d.answered(),
        ice_menu_program()(d).1 is Ok,
    ensures
        thaw_chosen(d, ice_menu_program()(d).0),
{
    let e = ice_menu_program()(d).0;
    let (m, r) = list_iced_program()(d);
    let iced = r->Ok_0;
    if let Reply::Names(names) = reply(d, 0) {
        assert(stems(views(names@)) == iced_in(reply(d, 0))->0);
    }
    assert(m == once_asked(d, Ask::ListIced));
    if iced.len() == 0 {
        lemma_told(m, e, "No iced sets"@);
    } else {
        let (m1, r1) = select_program("Thaw set"@, iced)(m);
        let choice = r1->Ok_0;
        lemma_selected(m, m1, "Thaw set"@, iced, choice);
        if let Some(set) = choice {
            lemma_thawed_or_told(set, not_thawed_notice(set), m1);
        }
        assert(selected(m, m1, "Thaw set"@, iced, choice));
    }
}

proof fn lemma_meant(given: Option<Seq<char>>, d: Dialogue, set: Seq<char>)
    requires
        d.answered(),
        set_or_current_program(given)(d).1 == Ok::<Seq<char>, Halt>(set),
    ensures
        meant(d, set_or_current_program(given)(d).0, given, set),
        set_or_current_program(given)(d).0.answered(),
{
    lemma_set_or_current_steady(given);
    lemma_grows(set_or_current_program(given), d);
    if given is None {
        lemma_looked_up(d, set);
    }
}

/// A command that is carried out does what is said of it: see `obeyed`.
pub proof fn law_commands_do_what_is_said_of_them(intent: Intent, d: Dialogue)
    requires
        d.answered(),
        obey_program(intent)(d).1 is Ok,
    ensures
        obeyed(d, obey_program(intent)(d).0, intent),
{
    let e = obey_program(intent)(d).0;
    match intent {
        Intent::Switch { key } => {
            let (m, r) = ensure_set_program()(d);
            let set = r->Ok_0;
            lemma_ensure_set_steady();
            lemma_grows(ensure_set_program(), d);
            law_focused_monitor_keeps_its_set(d, set);
            lemma_reached(key, set);
            lemma_commanded(m, e, switch_command(reached(key, set)));
            assert(settled_on(d, m, set));
        },
        Intent::Move { key } => {
            let (m, r) = ensure_set_program()(d);
            let set = r->Ok_0;
            lemma_ensure_set_steady();
            lemma_grows(ensure_set_program(), d);
            law_focused_monitor_keeps_its_set(d, set);
            lemma_reached(key, set);
            lemma_commanded(m, e, send_command(reached(key, set)));
            assert(settled_on(d, m, set));
        },
        Intent::Show { name } => law_picking_a_set(name, d),
        Intent::SetMenu => lemma_set_chosen(d),
        Intent::Ice { set: given } => {
            let (m, r) = set_or_current_program(given)(d);
            let set = r->Ok_0;
            lemma_meant(given, d, set);
            let (n, r2) = ice_set_program(set)(m);
            let count = r2->Ok_0;
            lemma_ice_set_steady(set);
            lemma_grows(ice_set_program(set), m);
            lemma_froze(set, m, count);
            lemma_told(n, e, iced_notice(set, count));
            assert(meant(d, m, given, set) && froze(m, n, set, count));
        },
        Intent::Thaw { set: given } => {
            let (m, r) = set_or_current_program(given)(d);
            let set = r->Ok_0;
            lemma_meant(given, d, set);
            lemma_thawed_or_told(set, not_iced_notice(set), m);
            assert(meant(d, m, given, set));
        },
        Intent::IceMenu => lemma_thaw_chosen(d),
        Intent::MoveToSet => lemma_target_chosen(d),
        Intent::Deliver { key } => lemma_delivered_all(key, d),
        Intent::Pin { key } => lemma_pinned(key, d),
        Intent::Unpin => {
            let (d1, r1) = tree_program()(d);
            let con_id = focused_window(r1->Ok_0)->0;
            let (d2, r2) = pins_program()(d1);
            let write = Ask::WritePins(unpinned_from(r2->Ok_0, con_id));
            assert(d.asked.push(Ask::Tree).push(Ask::ReadPins).push(write) == d.asked + seq![
                Ask::Tree,
                Ask::ReadPins,
                write,
            ]);
        },
        Intent::Current => {
            let (m, r) = current_set_program()(d);
            let set = r->Ok_0;
            lemma_current_set_steady();
            lemma_grows(current_set_program(), d);
            lemma_looked_up(d, set);
            let requests = Seq::new(1, |i: int| Ask::Print(seq![set][i]));
            assert(m.asked.push(Ask::Print(set)) == m.asked + requests);
            assert(reply(m, 0) is Done);
            assert(printed(m, e, seq![set]));
            assert(looked_up(d, m, set));
        },
        Intent::ListIced => {
            let (m, r) = list_iced_program()(d);
            if let Reply::Names(names) = reply(d, 0) {
                assert(stems(views(names@)) == iced_in(reply(d, 0))->0);
            }
            assert(m == once_asked(d, Ask::ListIced));
            lemma_printed(r->Ok_0, m);
        },
    }
}

} // verus!
