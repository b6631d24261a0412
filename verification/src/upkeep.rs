//! What is stored stays in order: whatever command is carried out, no two
//! monitors show the same set, no set is listed twice, a set was left at a
//! workspace of its own, no window is pinned twice, and what is kept of a
//! frozen set are workspaces of that set, none of them empty. And no window is
//! parked before it is stored where it belongs.

use crate::assignments::{exclusive, Planned};
use crate::change::{
    bring_commands, bring_program, carry_out_program, carry_pins_program, change_set_program,
    claim_program, ensure_set_program, exchange_program, keep_sets_program, place_pin_program,
    place_pins_program, prune_sets_program, replace_program, show_program, swap_program,
    thaw_if_iced_program,
};
use crate::command::{
    current_program, deliver_program, deliver_snapshot_program, deliver_to_program,
    focused_snapshot, ice_menu_program, ice_program, move_program, move_to_set_program,
    obey_program, pin_program, pin_window_program, print_all_program, print_iced_program,
    set_menu_program, set_or_current_program, switch_program, thaw_or_say_program, thaw_program,
    unpin_program, Intent,
};
use crate::dialogue::{keeps, Ask, Dialogue, File, Reply, Workspace};
use crate::freeze::{
    frozen, ice_set_program, move_all_program, park_program, restore_all_program, thaw_set_program,
};
use crate::json::{object_entries, object_text};
use crate::parking::{lemma_move_all_asks, lemma_restore_all, restores, restores_one};
use crate::pins::{
    lemma_live_pins_once, lemma_repinned_once, lemma_unpinned_once, pinned_once, pinned_windows,
    Pin,
};
use crate::resume::{group_operations_steady, lemma_fixed_operations_steady, lemma_obey_steady};
use crate::screens::{current_set_program, focused_set_program, load_program, Display, Screen};
use crate::session::Course;
use crate::sets::{
    ice_name, lemma_default_names_differ, lemma_ice_name_injective, lemma_live_sets_no_duplicates,
    lemma_touched_no_duplicates, list_text, listed,
};
use crate::snapshot::{
    all_ids, all_solid, law_splicing_adds_exactly_the_windows_of_the_tree,
    law_stripping_leaves_nothing_empty, lemma_all_solid_concat, lemma_stripped_from, shots,
    snapshot_ids, spliced, Snapshot, Tree,
};
use crate::state::{
    assignments_program, clear_pending_target_program, get_pending_target_program,
    last_workspace_program, last_workspaces_program, list_iced_program, list_sets_program,
    load_ice_program, pins_program, remember_workspace_program, save_assignments_program,
    save_ice_program, save_last_workspaces_program, save_pins_program, save_sets_program,
    select_program, set_pending_target_program, touch_set_program, tree_program, workspaces_program,
};
use crate::string_map::TextMap;
use crate::sway::{
    bracketed, float_command, group_not_parking, lemma_modes_are_not_parking,
    lemma_move_command_injective, move_command, parks,
};
use crate::trace::{
    any, asks_as, before, group_requests_heed, heeded, heeds, lemma_ask_heeds, lemma_bind_heeds,
    reliable, Rule,
};
use crate::tree::{
    focused_workspace, law_set_snapshots_belong_to_the_set, law_snapshot_holds_a_window,
    set_snapshots, Node,
};
use crate::workspace::{
    belongs, law_named_workspace_belongs_to_its_set, law_parking_belongs_to_no_set, made_of,
    set_suffix, workspace_named, PARKING_WORKSPACE,
};
use vstd::prelude::*;

verus! {

/// Whether the workspace that each set was left at is one of its own.
pub open spec fn rightly_left(last: TextMap) -> bool {
    forall|set: Seq<char>| #[trigger] last.contains_key(set) ==> belongs(last[set], set)
}

/// Whether snapshots are those of workspaces of a set, none of them empty.
pub open spec fn filed(set: Seq<char>, snapshots: Seq<Snapshot>) -> bool {
    forall|i: int|
        0 <= i < snapshots.len() ==> {
            &&& belongs((#[trigger] snapshots[i]).name, set)
            &&& snapshots[i].tree.len() > 0
            &&& all_solid(snapshots[i].tree)
        }
}

/// Whether what is read is in order.
pub open spec fn kept(request: Ask, reply: Reply) -> bool {
    match (request, reply) {
        (Ask::Read(File::Assignments), Reply::Text(text)) => match object_entries(text@) {
            Some(shown) => exclusive(shown),
            None => true,
        },
        (Ask::Read(File::Sets), Reply::Text(text)) => listed(text@).no_duplicates(),
        (Ask::Read(File::Last), Reply::Text(text)) => match object_entries(text@) {
            Some(last) => rightly_left(last),
            None => true,
        },
        (Ask::ReadPins, Reply::Pins(pins)) => pinned_once(pins@),
        (Ask::ReadIce(name), Reply::Snapshots(snapshots)) => forall|set: Seq<char>|
            name == #[trigger] ice_name(set) ==> filed(set, shots(snapshots@)),
        _ => true,
    }
}

/// Whether what is stored is in order.
pub open spec fn in_order(request: Ask) -> bool {
    match request {
        Ask::Write(File::Assignments, text) => exists|shown: TextMap|
            exclusive(shown) && text == #[trigger] object_text(shown),
        Ask::Write(File::Sets, text) => exists|sets: Seq<Seq<char>>|
            sets.no_duplicates() && text == #[trigger] list_text(sets),
        Ask::Write(File::Last, text) => exists|last: TextMap|
            rightly_left(last) && text == #[trigger] object_text(last),
        Ask::WritePins(pins) => pinned_once(pins),
        Ask::WriteIce(name, snapshots) => forall|set: Seq<char>|
            name == #[trigger] ice_name(set) ==> filed(set, snapshots),
        _ => true,
    }
}

/// Whether a window has been stored in a frozen set.
pub open spec fn is_stored(d: Dialogue, id: i64) -> bool {
    exists|j: int|
        {
            &&& 0 <= j < d.asked.len()
            &&& (#[trigger] d.asked[j]) matches Ask::WriteIce(name, snapshots)
            &&& snapshot_ids(snapshots).contains(id)
            &&& d.replies[j] is Done
        }
}

/// Whether some snapshots have a window on the parking workspace.
pub open spec fn filed_in_parking(snapshots: Seq<Snapshot>, id: i64) -> bool {
    exists|k: int|
        {
            &&& 0 <= k < snapshots.len()
            &&& (#[trigger] snapshots[k]).name == PARKING_WORKSPACE@
            &&& all_ids(snapshots[k].tree).contains(id)
        }
}

/// Whether a window was read from a frozen set that has it on the parking
/// workspace: thawing sends it there.
pub open spec fn is_misfiled(d: Dialogue, id: i64) -> bool {
    exists|j: int|
        {
            &&& 0 <= j < d.asked.len()
            &&& (#[trigger] d.asked[j]) is ReadIce
            &&& d.replies[j] matches Reply::Snapshots(snapshots)
            &&& filed_in_parking(shots(snapshots@), id)
        }
}

/// Whether a request parks no window that has not been stored before, but for
/// one that a frozen set has there.
pub open spec fn parked_rightly(d: Dialogue, request: Ask) -> bool {
    forall|id: i64|
        request == Ask::Run(#[trigger] move_command(id, PARKING_WORKSPACE@)) ==> is_stored(d, id)
            || is_misfiled(d, id)
}

/// What is relied on and promised: no window is parked that is not stored; and
/// where what is told can be relied on, what is read is in order, and so is
/// what is stored.
pub open spec fn upkeep(told: bool) -> Rule {
    Rule {
        relied: |request: Ask, reply: Reply| told ==> kept(request, reply),
        promised: |d: Dialogue, request: Ask|
            {
                &&& told ==> in_order(request)
                &&& parked_rightly(d, request)
            },
    }
}

/// Assignments of which no two are the same set.
pub open spec fn shown_apart(told: bool) -> spec_fn(TextMap) -> bool {
    |shown: TextMap| told ==> exclusive(shown)
}

/// Monitors of which no two show the same set.
pub open spec fn display_apart(told: bool) -> spec_fn(Display) -> bool {
    |display: Display| told ==> exclusive(display.shown)
}

/// Sets of which no two are the same.
pub open spec fn listed_once(told: bool) -> spec_fn(Seq<Seq<char>>) -> bool {
    |sets: Seq<Seq<char>>| told ==> sets.no_duplicates()
}

/// Workspaces of the sets that were left at them.
pub open spec fn left_at_own(told: bool) -> spec_fn(TextMap) -> bool {
    |last: TextMap| told ==> rightly_left(last)
}

/// Pins of which no two are of the same window.
pub open spec fn once(told: bool) -> spec_fn(Seq<Pin>) -> bool {
    |pins: Seq<Pin>| told ==> pinned_once(pins)
}

/// Snapshots of workspaces of a set, none of them empty.
pub open spec fn filed_under(told: bool, set: Seq<char>) -> spec_fn(Seq<Snapshot>) -> bool {
    |snapshots: Seq<Snapshot>| told ==> filed(set, snapshots)
}

/// What freezing a set stores is in order.
broadcast proof fn lemma_frozen_filed(tree: Node, set: Seq<char>, pins: Seq<Pin>)
    ensures
        filed(set, #[trigger] frozen(tree, set, pins)),
{
    let all = set_snapshots(tree, set);
    let pinned = pinned_windows(pins);
    let kept = frozen(tree, set, pins);
    assert forall|i: int| 0 <= i < kept.len() implies {
        &&& belongs((#[trigger] kept[i]).name, set)
        &&& kept[i].tree.len() > 0
        &&& all_solid(kept[i].tree)
    } by {
        law_stripping_leaves_nothing_empty(all, pinned, i);
        let j = lemma_stripped_from(all, pinned, i);
        law_set_snapshots_belong_to_the_set(tree, set, j);
    }
}

/// Trees spliced into what is in order leave it in order.
broadcast proof fn lemma_spliced_filed(
    set: Seq<char>,
    snapshots: Seq<Snapshot>,
    workspace: Seq<char>,
    layout: Seq<char>,
    tree: Seq<Tree>,
)
    requires
        filed(set, snapshots),
        belongs(workspace, set),
        tree.len() > 0,
        all_solid(tree),
    ensures
        #[trigger] filed(set, spliced(snapshots, workspace, layout, tree)),
    decreases snapshots.len(),
{
    if snapshots.len() > 0 {
        let rest = snapshots.drop_first();
        assert forall|i: int| 0 <= i < rest.len() implies {
            &&& belongs((#[trigger] rest[i]).name, set)
            &&& rest[i].tree.len() > 0
            &&& all_solid(rest[i].tree)
        } by {
            assert(rest[i] == snapshots[i + 1]);
        }
        lemma_spliced_filed(set, rest, workspace, layout, tree);
        lemma_all_solid_concat(snapshots[0].tree, tree);
    }
}

/// The snapshot of the focused workspace is not empty.
broadcast proof fn lemma_focused_snapshot_solid(tree: Node)
    ensures
        match #[trigger] focused_snapshot(tree) {
            Some(snapshot) => snapshot.tree.len() > 0 && all_solid(snapshot.tree),
            None => true,
        },
{
    if let Some(node) = focused_workspace(tree) {
        law_snapshot_holds_a_window(node);
    }
}

broadcast proof fn lemma_belongs_bracketed(workspace: Seq<char>, set: Seq<char>)
    requires
        #[trigger] belongs(workspace, set),
    ensures
        bracketed(workspace),
{
    let key = choose|key: Seq<char>| key.len() > 0 && #[trigger] made_of(workspace, key, set);
    reveal_strlit(")");
    assert(set_suffix(set).last() == ')');
    assert((key + set_suffix(set)).last() == ')');
}

broadcast proof fn lemma_bring_commands_park_nothing(
    workspaces: Seq<Workspace>,
    set: Seq<char>,
    output: Seq<char>,
    i: int,
)
    requires
        0 <= i < bring_commands(workspaces, set, output).len(),
    ensures
        !parks(#[trigger] bring_commands(workspaces, set, output)[i]),
    decreases workspaces.len(),
{
    broadcast use group_not_parking;

    let front = bring_commands(workspaces.drop_last(), set, output);
    if i < front.len() {
        lemma_bring_commands_park_nothing(workspaces.drop_last(), set, output, i);
    }
}

/// Whether windows are among those of some snapshots.
pub open spec fn among(ids: Seq<i64>, snapshots: Seq<Snapshot>) -> bool {
    forall|id: i64| #[trigger] ids.contains(id) ==> snapshot_ids(snapshots).contains(id)
}

broadcast proof fn lemma_spliced_among(
    snapshots: Seq<Snapshot>,
    workspace: Seq<char>,
    layout: Seq<char>,
    tree: Seq<Tree>,
)
    ensures
        #[trigger] among(all_ids(tree), spliced(snapshots, workspace, layout, tree)),
{
    broadcast use vstd::seq_lib::group_to_multiset_ensures;

    law_splicing_adds_exactly_the_windows_of_the_tree(snapshots, workspace, layout, tree);
    let ids = all_ids(tree);
    let all = snapshot_ids(spliced(snapshots, workspace, layout, tree));
    assert forall|id: i64| #[trigger] ids.contains(id) implies all.contains(id) by {
        assert(ids.to_multiset().count(id) > 0);
        assert(all.to_multiset().count(id) > 0);
    }
}

proof fn lemma_restoring_parks_rightly(
    d: Dialogue,
    request: Ask,
    snapshots: Seq<Snapshot>,
    j: int,
)
    requires
        restores_one(request, snapshots),
        0 <= j < d.asked.len(),
        d.asked[j] is ReadIce,
        d.replies[j] matches Reply::Snapshots(read) && shots(read@) == snapshots,
    ensures
        request is Run,
        parked_rightly(d, request),
{
    broadcast use group_not_parking;

    let k = choose|k: int|
        0 <= k < snapshots.len() && restores(
            request,
            all_ids((#[trigger] snapshots[k]).tree),
            snapshots[k].name,
        );
    let ids = all_ids(snapshots[k].tree);
    let workspace = snapshots[k].name;
    assert forall|id: i64|
        request == Ask::Run(#[trigger] move_command(id, PARKING_WORKSPACE@)) implies is_stored(
        d,
        id,
    ) || is_misfiled(d, id) by {
        assert(parks(move_command(id, PARKING_WORKSPACE@)));
        let other = choose|other: i64| #[trigger]
            ids.contains(other) && (request == Ask::Run(move_command(other, workspace)) || request
                == Ask::Run(float_command(other)));
        lemma_move_command_injective(other, id, workspace, PARKING_WORKSPACE@);
        assert(filed_in_parking(snapshots, id));
    }
}

/// What the upkeep of an operation follows from.
broadcast group group_upkeep {
    group_operations_steady,
    group_requests_heed,
    lemma_bind_heeds,
    group_not_parking,
}

broadcast proof fn lemma_assignments_upkeep(told: bool)
    ensures
        heeds(assignments_program(), upkeep(told), shown_apart(told)),
        #[trigger] heeds(assignments_program(), upkeep(told), any()),
{
    broadcast use group_upkeep;

    lemma_ask_heeds(
        Ask::Read(File::Assignments),
        upkeep(told),
        |reply: Reply| told ==> kept(Ask::Read(File::Assignments), reply),
    );
}

broadcast proof fn lemma_save_assignments_upkeep(told: bool, shown: TextMap)
    requires
        told ==> exclusive(shown),
    ensures
        #[trigger] heeds(save_assignments_program(shown), upkeep(told), any()),
{
    broadcast use group_upkeep;

}

broadcast proof fn lemma_list_sets_upkeep(told: bool)
    ensures
        heeds(list_sets_program(), upkeep(told), listed_once(told)),
        #[trigger] heeds(list_sets_program(), upkeep(told), any()),
{
    broadcast use group_upkeep;

    lemma_default_names_differ();
    lemma_ask_heeds(
        Ask::Read(File::Sets),
        upkeep(told),
        |reply: Reply| told ==> kept(Ask::Read(File::Sets), reply),
    );
}

broadcast proof fn lemma_save_sets_upkeep(told: bool, sets: Seq<Seq<char>>)
    requires
        told ==> sets.no_duplicates(),
    ensures
        #[trigger] heeds(save_sets_program(sets), upkeep(told), any()),
{
    broadcast use group_upkeep;

}

broadcast proof fn lemma_touch_set_upkeep(told: bool, name: Seq<char>)
    ensures
        #[trigger] heeds(touch_set_program(name), upkeep(told), any()),
{
    broadcast use {group_upkeep, lemma_touched_no_duplicates, lemma_save_sets_upkeep};

    lemma_fixed_operations_steady();
    lemma_list_sets_upkeep(told);
}

broadcast proof fn lemma_last_workspaces_upkeep(told: bool)
    ensures
        heeds(last_workspaces_program(), upkeep(told), left_at_own(told)),
        #[trigger] heeds(last_workspaces_program(), upkeep(told), any()),
{
    broadcast use group_upkeep;

    lemma_ask_heeds(
        Ask::Read(File::Last),
        upkeep(told),
        |reply: Reply| told ==> kept(Ask::Read(File::Last), reply),
    );
}

broadcast proof fn lemma_save_last_workspaces_upkeep(told: bool, last: TextMap)
    requires
        told ==> rightly_left(last),
    ensures
        #[trigger] heeds(save_last_workspaces_program(last), upkeep(told), any()),
{
    broadcast use group_upkeep;

}

broadcast proof fn lemma_last_workspace_upkeep(told: bool, set: Seq<char>)
    ensures
        #[trigger] heeds(last_workspace_program(set), upkeep(told), any()),
{
    broadcast use group_upkeep;

    lemma_fixed_operations_steady();
    lemma_last_workspaces_upkeep(told);
}

broadcast proof fn lemma_remember_workspace_upkeep(
    told: bool,
    set: Seq<char>,
    workspace: Option<Seq<char>>,
)
    ensures
        #[trigger] heeds(remember_workspace_program(set, workspace), upkeep(told), any()),
{
    broadcast use {group_upkeep, lemma_save_last_workspaces_upkeep};

    lemma_fixed_operations_steady();
    lemma_last_workspaces_upkeep(told);
}

broadcast proof fn lemma_save_ice_upkeep(told: bool, set: Seq<char>, snapshots: Seq<Snapshot>)
    requires
        told ==> filed(set, snapshots),
    ensures
        #[trigger] heeds(save_ice_program(set, snapshots), upkeep(told), any()),
{
    broadcast use {group_upkeep, lemma_ice_name_injective};

}

broadcast proof fn lemma_load_ice_upkeep(told: bool, set: Seq<char>)
    ensures
        heeds(load_ice_program(set), upkeep(told), filed_under(told, set)),
        #[trigger] heeds(load_ice_program(set), upkeep(told), any()),
{
    broadcast use group_upkeep;

    lemma_ask_heeds(
        Ask::ReadIce(ice_name(set)),
        upkeep(told),
        |reply: Reply| told ==> kept(Ask::ReadIce(ice_name(set)), reply),
    );
}

broadcast proof fn lemma_list_iced_upkeep(told: bool)
    ensures
        #[trigger] heeds(list_iced_program(), upkeep(told), any()),
{
    broadcast use group_upkeep;

}

broadcast proof fn lemma_pins_upkeep(told: bool)
    ensures
        heeds(pins_program(), upkeep(told), once(told)),
        #[trigger] heeds(pins_program(), upkeep(told), any()),
{
    broadcast use group_upkeep;

    lemma_ask_heeds(
        Ask::ReadPins,
        upkeep(told),
        |reply: Reply| told ==> kept(Ask::ReadPins, reply),
    );
}

broadcast proof fn lemma_save_pins_upkeep(told: bool, pins: Seq<Pin>)
    requires
        told ==> pinned_once(pins),
    ensures
        #[trigger] heeds(save_pins_program(pins), upkeep(told), any()),
{
    broadcast use group_upkeep;

}

broadcast proof fn lemma_set_pending_target_upkeep(told: bool, set: Seq<char>)
    ensures
        #[trigger] heeds(set_pending_target_program(set), upkeep(told), any()),
{
    broadcast use group_upkeep;

}

broadcast proof fn lemma_get_pending_target_upkeep(told: bool)
    ensures
        #[trigger] heeds(get_pending_target_program(), upkeep(told), any()),
{
    broadcast use group_upkeep;

}

broadcast proof fn lemma_clear_pending_target_upkeep(told: bool)
    ensures
        #[trigger] heeds(clear_pending_target_program(), upkeep(told), any()),
{
    broadcast use group_upkeep;

}

broadcast proof fn lemma_tree_upkeep(told: bool)
    ensures
        #[trigger] heeds(tree_program(), upkeep(told), any()),
{
    broadcast use group_upkeep;

}

broadcast proof fn lemma_workspaces_upkeep(told: bool)
    ensures
        #[trigger] heeds(workspaces_program(), upkeep(told), any()),
{
    broadcast use group_upkeep;

}

broadcast proof fn lemma_select_upkeep(told: bool, prompt: Seq<char>, options: Seq<Seq<char>>)
    ensures
        #[trigger] heeds(select_program(prompt, options), upkeep(told), any()),
{
    broadcast use group_upkeep;

}

broadcast proof fn lemma_load_upkeep(told: bool)
    ensures
        heeds(load_program(), upkeep(told), display_apart(told)),
        #[trigger] heeds(load_program(), upkeep(told), any()),
{
    broadcast use group_upkeep;

    lemma_fixed_operations_steady();
    lemma_assignments_upkeep(told);
}

broadcast proof fn lemma_focused_set_upkeep(told: bool, display: Display)
    ensures
        #[trigger] heeds(focused_set_program(display), upkeep(told), any()),
{
    broadcast use group_upkeep;

    lemma_fixed_operations_steady();
    lemma_list_sets_upkeep(told);
}

broadcast proof fn lemma_current_set_upkeep(told: bool)
    ensures
        #[trigger] heeds(current_set_program(), upkeep(told), any()),
{
    broadcast use {group_upkeep, lemma_focused_set_upkeep};

    lemma_fixed_operations_steady();
    lemma_load_upkeep(told);
}

broadcast proof fn lemma_move_all_upkeep(told: bool, ids: Seq<i64>, workspace: Seq<char>)
    requires
        bracketed(workspace),
    ensures
        #[trigger] heeds(move_all_program(ids, workspace), upkeep(told), any()),
    decreases ids.len(),
{
    broadcast use group_upkeep;

    if ids.len() > 0 {
        lemma_move_all_upkeep(told, ids.drop_last(), workspace);
    }
}

broadcast proof fn lemma_park_upkeep(
    told: bool,
    set: Seq<char>,
    snapshots: Seq<Snapshot>,
    ids: Seq<i64>,
)
    requires
        told ==> filed(set, snapshots),
        among(ids, snapshots),
    ensures
        #[trigger] heeds(park_program(set, snapshots, ids), upkeep(told), any()),
{
    broadcast use {group_upkeep, lemma_save_ice_upkeep, lemma_move_all_upkeep};

    let rule = upkeep(told);
    let p = park_program(set, snapshots, ids);
    lemma_save_ice_upkeep(told, set, snapshots);
    assert forall|d: Dialogue| d.answered() implies heeded(d, #[trigger] p(d), rule, any()) by {
        let n = d.asked.len() as int;
        let e = p(d).0;
        let (d1, r1) = save_ice_program(set, snapshots)(d);
        assert(heeded(d, (d1, r1), rule, any()));
        if r1 is Ok && reliable(e, rule) {
            lemma_move_all_asks(ids, PARKING_WORKSPACE@, d1);
            let store = Ask::WriteIce(ice_name(set), snapshots);
            assert(d1.asked == d.asked.push(store));
            assert(e.asked[n] == store);
            assert forall|i: int| n < i < e.asked.len() implies (rule.promised)(
                before(e, i),
                #[trigger] e.asked[i],
            ) by {
                let id = ids[i - n - 1];
                assert(e.asked[i] == Ask::Run(move_command(id, PARKING_WORKSPACE@)));
                assert(before(e, i).asked[n] == store);
                assert forall|other: i64|
                    e.asked[i] == Ask::Run(
                        #[trigger] move_command(other, PARKING_WORKSPACE@),
                    ) implies is_stored(before(e, i), other) || is_misfiled(
                    before(e, i),
                    other,
                ) by {
                    lemma_move_command_injective(
                        id,
                        other,
                        PARKING_WORKSPACE@,
                        PARKING_WORKSPACE@,
                    );
                    assert(ids.contains(id));
                }
            }
            assert(reliable(d1, rule)) by {
                assert forall|i: int|
                    0 <= i < d1.asked.len() && i < d1.replies.len() implies (rule.relied)(
                    #[trigger] d1.asked[i],
                    d1.replies[i],
                ) by {
                    assert(d1.asked[i] == e.asked[i]);
                }
            }
            assert((rule.promised)(before(d1, n), d1.asked[n]));
            assert(before(e, n).asked == before(d1, n).asked);
            assert(asks_as(e, d.asked.len(), rule)) by {
                assert forall|i: int| n <= i < e.asked.len() implies (rule.promised)(
                    before(e, i),
                    #[trigger] e.asked[i],
                ) by {}
            }
        }
    }
}

broadcast proof fn lemma_ice_set_upkeep(told: bool, set: Seq<char>)
    ensures
        #[trigger] heeds(ice_set_program(set), upkeep(told), any()),
{
    broadcast use {group_upkeep, lemma_frozen_filed, lemma_park_upkeep};

    lemma_fixed_operations_steady();
    lemma_tree_upkeep(told);
    lemma_pins_upkeep(told);
}

broadcast proof fn lemma_thaw_set_upkeep(told: bool, set: Seq<char>)
    ensures
        #[trigger] heeds(thaw_set_program(set), upkeep(told), any()),
{
    broadcast use group_upkeep;

    let rule = upkeep(told);
    let p = thaw_set_program(set);
    assert forall|d: Dialogue| d.answered() implies heeded(d, #[trigger] p(d), rule, any()) by {
        let n = d.asked.len() as int;
        let e = p(d).0;
        let (d1, r1) = load_ice_program(set)(d);
        assert(d1.asked == d.asked.push(Ask::ReadIce(ice_name(set))));
        if r1 is Ok {
            let snapshots = r1->Ok_0;
            lemma_restore_all(snapshots, d1);
            let (d2, r2) = restore_all_program(snapshots)(d1);
            if r2 is Ok {
                assert(e.asked == d2.asked.push(Ask::RemoveIce(ice_name(set))));
            }
            assert forall|i: int| n <= i < e.asked.len() implies (rule.promised)(
                before(e, i),
                #[trigger] e.asked[i],
            ) by {
                assert(e.asked[n] == d1.asked[n]);
                if n < i < d2.asked.len() {
                    assert(e.asked[i] == d2.asked[i]);
                    lemma_restoring_parks_rightly(before(e, i), e.asked[i], snapshots, n);
                }
            }
        } else {
            assert forall|i: int| n <= i < e.asked.len() implies (rule.promised)(
                before(e, i),
                #[trigger] e.asked[i],
            ) by {
                assert(e.asked[n] == d1.asked[n]);
            }
        }
    }
}

broadcast proof fn lemma_thaw_if_iced_upkeep(told: bool, set: Seq<char>)
    ensures
        #[trigger] heeds(thaw_if_iced_program(set), upkeep(told), any()),
{
    broadcast use {group_upkeep, lemma_thaw_set_upkeep};

    lemma_fixed_operations_steady();
    lemma_list_iced_upkeep(told);
}

broadcast proof fn lemma_bring_upkeep(told: bool, set: Seq<char>, monitor: Screen)
    ensures
        #[trigger] heeds(bring_program(set, monitor), upkeep(told), any()),
{
    broadcast use {group_upkeep, lemma_bring_commands_park_nothing, lemma_thaw_if_iced_upkeep};

    lemma_fixed_operations_steady();
    lemma_workspaces_upkeep(told);
}

broadcast proof fn lemma_show_upkeep(told: bool, monitor: Screen, workspace: Seq<char>)
    ensures
        #[trigger] heeds(show_program(monitor, workspace), upkeep(told), any()),
{
    broadcast use group_upkeep;

}

broadcast proof fn lemma_claim_upkeep(told: bool, display: Display, here: Screen)
    requires
        told ==> exclusive(display.shown),
    ensures
        #[trigger] heeds(claim_program(display, here), upkeep(told), any()),
{
    broadcast use {
        group_upkeep,
        lemma_focused_set_upkeep,
        lemma_save_assignments_upkeep,
        lemma_touch_set_upkeep,
        lemma_bring_upkeep,
    };

}

broadcast proof fn lemma_ensure_set_upkeep(told: bool)
    ensures
        #[trigger] heeds(ensure_set_program(), upkeep(told), any()),
{
    broadcast use {group_upkeep, lemma_claim_upkeep};

    lemma_fixed_operations_steady();
    lemma_load_upkeep(told);
}

broadcast proof fn lemma_swap_upkeep(
    told: bool,
    display: Display,
    here: Screen,
    monitor: Seq<char>,
    old: Seq<char>,
    set: Seq<char>,
)
    requires
        told ==> exclusive(display.shown),
    ensures
        #[trigger] heeds(swap_program(display, here, monitor, old, set), upkeep(told), any()),
{
    broadcast use {
        group_upkeep,
        lemma_save_assignments_upkeep,
        lemma_remember_workspace_upkeep,
        lemma_last_workspace_upkeep,
        lemma_exchange_upkeep,
    };

}

broadcast proof fn lemma_exchange_upkeep(
    told: bool,
    here: Screen,
    there: Screen,
    old: Seq<char>,
    set: Seq<char>,
    leaving: Option<Seq<char>>,
    arriving: Option<Seq<char>>,
)
    ensures
        #[trigger] heeds(
            exchange_program(here, there, old, set, leaving, arriving),
            upkeep(told),
            any(),
        ),
{
    broadcast use {group_upkeep, lemma_bring_upkeep, lemma_show_upkeep};

}

broadcast proof fn lemma_replace_upkeep(
    told: bool,
    display: Display,
    here: Screen,
    old: Seq<char>,
    set: Seq<char>,
)
    requires
        told ==> exclusive(display.shown),
    ensures
        #[trigger] heeds(replace_program(display, here, old, set), upkeep(told), any()),
{
    broadcast use {
        group_upkeep,
        lemma_remember_workspace_upkeep,
        lemma_ice_set_upkeep,
        lemma_save_assignments_upkeep,
        lemma_last_workspace_upkeep,
        lemma_bring_upkeep,
        lemma_show_upkeep,
    };

}

broadcast proof fn lemma_carry_out_upkeep(
    told: bool,
    display: Display,
    here: Screen,
    set: Seq<char>,
    plan: Planned,
)
    requires
        told ==> exclusive(display.shown),
    ensures
        #[trigger] heeds(carry_out_program(display, here, set, plan), upkeep(told), any()),
{
    broadcast use {group_upkeep, lemma_swap_upkeep, lemma_replace_upkeep};

}

broadcast proof fn lemma_change_set_upkeep(told: bool, set: Seq<char>)
    ensures
        #[trigger] heeds(change_set_program(set), upkeep(told), any()),
{
    broadcast use {
        group_upkeep,
        lemma_touch_set_upkeep,
        lemma_carry_out_upkeep,
        lemma_carry_pins_upkeep,
    };

    lemma_fixed_operations_steady();
    lemma_ensure_set_upkeep(told);
    lemma_load_upkeep(told);
}

broadcast proof fn lemma_place_pin_upkeep(told: bool, pin: Pin, set: Seq<char>)
    ensures
        #[trigger] heeds(place_pin_program(pin, set), upkeep(told), any()),
{
    broadcast use group_upkeep;

    lemma_fixed_operations_steady();
    lemma_tree_upkeep(told);
    law_named_workspace_belongs_to_its_set(pin.key, set);
    lemma_belongs_bracketed(workspace_named(pin.key, set), set);
}

broadcast proof fn lemma_place_pins_upkeep(told: bool, pins: Seq<Pin>, set: Seq<char>)
    ensures
        #[trigger] heeds(place_pins_program(pins, set), upkeep(told), any()),
    decreases pins.len(),
{
    broadcast use {group_upkeep, lemma_place_pin_upkeep};

    if pins.len() > 0 {
        lemma_place_pins_upkeep(told, pins.drop_last(), set);
    }
}

broadcast proof fn lemma_carry_pins_upkeep(told: bool, set: Seq<char>)
    ensures
        #[trigger] heeds(carry_pins_program(set), upkeep(told), any()),
{
    broadcast use {
        group_upkeep,
        lemma_live_pins_once,
        lemma_save_pins_upkeep,
        lemma_place_pins_upkeep,
    };

    lemma_fixed_operations_steady();
    lemma_pins_upkeep(told);
    lemma_tree_upkeep(told);
}

broadcast proof fn lemma_prune_sets_upkeep(told: bool)
    ensures
        #[trigger] heeds(prune_sets_program(), upkeep(told), any()),
{
    broadcast use {group_upkeep, lemma_live_sets_no_duplicates, lemma_keep_sets_upkeep};

    lemma_fixed_operations_steady();
    lemma_load_upkeep(told);
    lemma_workspaces_upkeep(told);
    lemma_list_sets_upkeep(told);
    lemma_list_iced_upkeep(told);
}

broadcast proof fn lemma_keep_sets_upkeep(told: bool, sets: Seq<Seq<char>>)
    requires
        told ==> sets.no_duplicates(),
    ensures
        #[trigger] heeds(keep_sets_program(sets), upkeep(told), any()),
{
    broadcast use {group_upkeep, lemma_save_sets_upkeep, lemma_save_last_workspaces_upkeep};

    lemma_fixed_operations_steady();
    lemma_last_workspaces_upkeep(told);
}

broadcast proof fn lemma_switch_upkeep(told: bool, key: char)
    ensures
        #[trigger] heeds(switch_program(key), upkeep(told), any()),
{
    broadcast use group_upkeep;

    lemma_fixed_operations_steady();
    lemma_ensure_set_upkeep(told);
}

broadcast proof fn lemma_move_upkeep(told: bool, key: char)
    ensures
        #[trigger] heeds(move_program(key), upkeep(told), any()),
{
    broadcast use group_upkeep;

    lemma_fixed_operations_steady();
    lemma_ensure_set_upkeep(told);
}

broadcast proof fn lemma_set_menu_upkeep(told: bool)
    ensures
        #[trigger] heeds(set_menu_program(), upkeep(told), any()),
{
    broadcast use {group_upkeep, lemma_select_upkeep, lemma_change_set_upkeep};

    lemma_fixed_operations_steady();
    lemma_ensure_set_upkeep(told);
    lemma_prune_sets_upkeep(told);
}

broadcast proof fn lemma_set_or_current_upkeep(told: bool, set: Option<Seq<char>>)
    ensures
        #[trigger] heeds(set_or_current_program(set), upkeep(told), any()),
{
    broadcast use group_upkeep;

    lemma_fixed_operations_steady();
    lemma_current_set_upkeep(told);
}

broadcast proof fn lemma_ice_upkeep(told: bool, set: Option<Seq<char>>)
    ensures
        #[trigger] heeds(ice_program(set), upkeep(told), any()),
{
    broadcast use {group_upkeep, lemma_set_or_current_upkeep, lemma_ice_set_upkeep};

}

broadcast proof fn lemma_thaw_or_say_upkeep(told: bool, set: Seq<char>, otherwise: Seq<char>)
    ensures
        #[trigger] heeds(thaw_or_say_program(set, otherwise), upkeep(told), any()),
{
    broadcast use {group_upkeep, lemma_thaw_set_upkeep};

}

broadcast proof fn lemma_thaw_upkeep(told: bool, set: Option<Seq<char>>)
    ensures
        #[trigger] heeds(thaw_program(set), upkeep(told), any()),
{
    broadcast use {group_upkeep, lemma_set_or_current_upkeep, lemma_thaw_or_say_upkeep};

}

broadcast proof fn lemma_ice_menu_upkeep(told: bool)
    ensures
        #[trigger] heeds(ice_menu_program(), upkeep(told), any()),
{
    broadcast use {group_upkeep, lemma_select_upkeep, lemma_thaw_or_say_upkeep};

    lemma_fixed_operations_steady();
    lemma_list_iced_upkeep(told);
}

broadcast proof fn lemma_move_to_set_upkeep(told: bool)
    ensures
        #[trigger] heeds(move_to_set_program(), upkeep(told), any()),
{
    broadcast use {
        group_upkeep,
        lemma_select_upkeep,
        lemma_touch_set_upkeep,
        lemma_set_pending_target_upkeep,
    };

    lemma_fixed_operations_steady();
    lemma_prune_sets_upkeep(told);
    lemma_modes_are_not_parking();
}

broadcast proof fn lemma_deliver_snapshot_upkeep(
    told: bool,
    snapshot: Snapshot,
    set: Seq<char>,
    workspace: Seq<char>,
)
    requires
        belongs(workspace, set),
        snapshot.tree.len() > 0,
        all_solid(snapshot.tree),
    ensures
        #[trigger] heeds(deliver_snapshot_program(snapshot, set, workspace), upkeep(told), any()),
{
    broadcast use {
        group_upkeep,
        lemma_spliced_filed,
        lemma_spliced_among,
        lemma_belongs_bracketed,
        lemma_load_ice_upkeep,
        lemma_park_upkeep,
        lemma_move_all_upkeep,
    };

    lemma_fixed_operations_steady();
    lemma_list_iced_upkeep(told);
    lemma_load_ice_upkeep(told, set);
}

broadcast proof fn lemma_deliver_to_upkeep(told: bool, set: Seq<char>, key: char)
    ensures
        #[trigger] heeds(deliver_to_program(set, key), upkeep(told), any()),
{
    broadcast use {group_upkeep, lemma_focused_snapshot_solid, lemma_deliver_snapshot_upkeep};

    lemma_fixed_operations_steady();
    lemma_tree_upkeep(told);
    law_named_workspace_belongs_to_its_set(key, set);
}

broadcast proof fn lemma_deliver_upkeep(told: bool, key: char)
    ensures
        #[trigger] heeds(deliver_program(key), upkeep(told), any()),
{
    broadcast use {group_upkeep, lemma_deliver_to_upkeep};

    lemma_fixed_operations_steady();
    lemma_get_pending_target_upkeep(told);
    lemma_clear_pending_target_upkeep(told);
    lemma_modes_are_not_parking();
}

broadcast proof fn lemma_pin_window_upkeep(
    told: bool,
    con_id: i64,
    key: Option<char>,
    tree: Node,
    set: Seq<char>,
)
    ensures
        #[trigger] heeds(pin_window_program(con_id, key, tree, set), upkeep(told), any()),
{
    broadcast use {
        group_upkeep,
        lemma_repinned_once,
        lemma_unpinned_once,
        lemma_save_pins_upkeep,
        lemma_carry_pins_upkeep,
    };

    lemma_fixed_operations_steady();
    lemma_pins_upkeep(told);
}

broadcast proof fn lemma_pin_upkeep(told: bool, key: Option<char>)
    ensures
        #[trigger] heeds(pin_program(key), upkeep(told), any()),
{
    broadcast use {group_upkeep, lemma_pin_window_upkeep};

    lemma_fixed_operations_steady();
    lemma_ensure_set_upkeep(told);
    lemma_tree_upkeep(told);
}

broadcast proof fn lemma_unpin_upkeep(told: bool)
    ensures
        #[trigger] heeds(unpin_program(), upkeep(told), any()),
{
    broadcast use {group_upkeep, lemma_unpinned_once, lemma_save_pins_upkeep};

    lemma_fixed_operations_steady();
    lemma_tree_upkeep(told);
    lemma_pins_upkeep(told);
}

broadcast proof fn lemma_current_upkeep(told: bool)
    ensures
        #[trigger] heeds(current_program(), upkeep(told), any()),
{
    broadcast use group_upkeep;

    lemma_fixed_operations_steady();
    lemma_current_set_upkeep(told);
}

broadcast proof fn lemma_print_all_upkeep(told: bool, lines: Seq<Seq<char>>)
    ensures
        #[trigger] heeds(print_all_program(lines), upkeep(told), any()),
    decreases lines.len(),
{
    broadcast use group_upkeep;

    if lines.len() > 0 {
        lemma_print_all_upkeep(told, lines.drop_last());
    }
}

broadcast proof fn lemma_print_iced_upkeep(told: bool)
    ensures
        #[trigger] heeds(print_iced_program(), upkeep(told), any()),
{
    broadcast use {group_upkeep, lemma_print_all_upkeep};

    lemma_fixed_operations_steady();
    lemma_list_iced_upkeep(told);
}

broadcast proof fn lemma_obey_upkeep(told: bool, intent: Intent)
    ensures
        #[trigger] heeds(obey_program(intent), upkeep(told), any()),
{
    broadcast use {
        group_upkeep,
        lemma_switch_upkeep,
        lemma_move_upkeep,
        lemma_change_set_upkeep,
        lemma_ice_upkeep,
        lemma_thaw_upkeep,
        lemma_deliver_upkeep,
        lemma_pin_upkeep,
    };

    lemma_fixed_operations_steady();
    lemma_set_menu_upkeep(told);
    lemma_ice_menu_upkeep(told);
    lemma_move_to_set_upkeep(told);
    lemma_unpin_upkeep(told);
    lemma_current_upkeep(told);
    lemma_print_iced_upkeep(told);
}

/// Whether everything that a session is told was stored is in order.
pub open spec fn told_in_order(course: Course) -> bool {
    forall|j: int|
        0 <= j < course.so_far().0.asked.len() && j < course.replies.len() ==> kept(
            #[trigger] course.so_far().0.asked[j],
            course.replies[j],
        )
}

proof fn lemma_session_upkeep(told: bool, course: Course)
    requires
        told ==> told_in_order(course),
    ensures
        course.so_far().0.replies == course.replies,
        asks_as(course.so_far().0, 0, upkeep(told)),
{
    let d = Dialogue { replies: course.replies, asked: seq![] };
    let p = obey_program(course.intent);
    lemma_obey_upkeep(told, course.intent);
    lemma_obey_steady(course.intent);
    assert(keeps(d, Reply::Done, p(d), p(d.with(Reply::Done))));
    assert(heeded(d, p(d), upkeep(told), any()));
}

/// What is stored stays in order, whatever the command: as long as everything
/// that a session is told was stored is in order, so is everything that it
/// stores.
pub proof fn law_what_is_stored_stays_in_order(course: Course, i: int)
    requires
        0 <= i < course.so_far().0.asked.len(),
        told_in_order(course),
    ensures
        in_order(course.so_far().0.asked[i]),
{
    lemma_session_upkeep(true, course);
    assert((upkeep(true).promised)(before(course.so_far().0, i), course.so_far().0.asked[i]));
}

/// No window is lost in parking, whatever the command and whatever the session
/// is told: when it asks for a window to be parked, it has had the window
/// stored in a frozen set before; or else it is thawing a set whose frozen
/// file, read before, has the window on the parking workspace, as that of no
/// set in order does.
pub proof fn law_no_window_is_parked_that_is_not_stored(course: Course, i: int, id: i64)
    requires
        0 <= i < course.so_far().0.asked.len(),
        course.so_far().0.asked[i] == Ask::Run(move_command(id, PARKING_WORKSPACE@)),
    ensures
        exists|j: int|
            {
                &&& 0 <= j < i
                &&& match #[trigger] course.so_far().0.asked[j] {
                    Ask::WriteIce(name, snapshots) => {
                        &&& snapshot_ids(snapshots).contains(id)
                        &&& course.replies[j] is Done
                    },
                    Ask::ReadIce(name) => {
                        &&& course.replies[j] matches Reply::Snapshots(snapshots)
                        &&& filed_in_parking(shots(snapshots@), id)
                    },
                    _ => false,
                }
            },
{
    lemma_session_upkeep(false, course);
    let d = course.so_far().0;
    let b = before(d, i);
    assert((upkeep(false).promised)(b, d.asked[i]));
    let j = if is_stored(b, id) {
        choose|j: int|
            {
                &&& 0 <= j < b.asked.len()
                &&& (#[trigger] b.asked[j]) matches Ask::WriteIce(name, snapshots)
                &&& snapshot_ids(snapshots).contains(id)
                &&& b.replies[j] is Done
            }
    } else {
        choose|j: int|
            {
                &&& 0 <= j < b.asked.len()
                &&& (#[trigger] b.asked[j]) is ReadIce
                &&& b.replies[j] matches Reply::Snapshots(snapshots)
                &&& filed_in_parking(shots(snapshots@), id)
            }
    };
    assert(d.asked[j] == b.asked[j]);
}

/// No frozen set in order has a window on the parking workspace.
pub proof fn law_frozen_set_in_order_has_nothing_in_parking(
    set: Seq<char>,
    snapshots: Seq<Snapshot>,
    id: i64,
)
    requires
        filed(set, snapshots),
    ensures
        !filed_in_parking(snapshots, id),
{
    law_parking_belongs_to_no_set(set);
}

} // verus!
