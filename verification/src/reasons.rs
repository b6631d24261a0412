//! Every failure has its reason: a reply that does not fit its request, a
//! command that sway refuses, or something that is not there.

use crate::account::once_asked;
use crate::assignments::{law_plan_follows_who_shows_the_set, planned, Planned};
use crate::carrying::lemma_grows;
use crate::change::{
    bring_program, carry_out_program, carry_pins_program, change_set_program, claim_program,
    ensure_set_program, exchange_program, keep_sets_program, place_pin_program, place_pins_program,
    prune_sets_program, replace_program, show_program, swap_program, thaw_if_iced_program,
};
use crate::command::{
    current_program, deliver_program, deliver_snapshot_program, deliver_to_program,
    ice_menu_program, ice_program, move_program, move_to_set_program, obey_program, pin_key,
    pin_program, pin_window_program, print_all_program, print_iced_program, set_menu_program,
    set_or_current_program, switch_program, thaw_or_say_program, thaw_program, unpin_program,
    Intent,
};
use crate::dialogue::{
    attempt_program, bind, caught, give, keeps, order_program, perform, run_all_program,
    run_program, steady, tell, Ask, Dialogue, Fault, File, Halt, Output, Program, Reply,
};
use crate::freeze::{
    ice_set_program, move_all_program, park_program, restore_all_program, restore_children_program,
    restore_node_program, restore_tree_program, thaw_set_program,
};
use crate::json::object_entries;
use crate::pins::{pinned_windows, unpinned_from, Pin};
use crate::resume::{
    group_operations_steady, lemma_ensure_set_steady, lemma_fixed_operations_steady,
    lemma_load_steady, lemma_pins_steady, lemma_tree_steady,
};
use crate::screens::{
    current_set_program, focused_monitor, focused_set_program, ids_of,
    law_focused_monitor_is_on_the_output_with_the_focus, law_monitor_is_found_by_its_identifier,
    load_program, monitor_by_id, Display, Screen,
};
use crate::sets::ice_name;
use crate::snapshot::{Snapshot, Tree};
use crate::state::{
    assignments_program, clear_pending_target_program, get_pending_target_program,
    last_workspace_program, last_workspaces_program, list_iced_program, list_sets_program,
    load_ice_program, pins_program, remember_workspace_program, remove_ice_program,
    save_assignments_program, save_ice_program, save_last_workspaces_program, save_pins_program,
    save_sets_program, select_program, set_pending_target_program, touch_set_program, tree_program,
    workspaces_program,
};
use crate::string_map::TextMap;
use crate::sway::pinned_notice;
use crate::text::{joined, upper};
use crate::tree::{
    focused_window, focused_workspace, inside, is_window,
    law_focused_window_is_found_wherever_it_stands, Node,
};
use crate::workspace::law_key_is_the_one_character_before_the_set;
use vstd::prelude::*;

verus! {

/// Whether a reply is one that its request allows for.
pub open spec fn fits(request: Ask, reply: Reply) -> bool {
    match request {
        Ask::Outputs => reply is Outputs,
        Ask::Workspaces => reply is Workspaces,
        Ask::Tree => reply is Tree,
        Ask::Run(_) => reply is Ran,
        Ask::Read(file) => reply is Text || reply is Missing || (reply is Failed && file
            != File::Assignments),
        Ask::ReadPins => reply is Pins || reply is Missing || reply is Failed,
        Ask::ListIced => reply is Names || reply is Missing,
        Ask::ReadIce(_) => reply is Snapshots,
        Ask::Select { .. } => reply is Text,
        Ask::Notify(_) => true,
        _ => reply is Done,
    }
}

/// Whether no active output has the focus.
pub open spec fn nowhere_focused(outputs: Seq<Output>) -> bool {
    forall|i: int|
        0 <= i < outputs.len() ==> !((#[trigger] outputs[i]).active && outputs[i].focused)
}

/// Whether no window of a tree has the focus.
pub open spec fn no_focused_window(tree: Node) -> bool {
    forall|node: Node| #[trigger] inside(tree, node) && is_window(node) ==> !node.focused
}

/// The name of the workspace of a set that a character reaches.
pub open spec fn keyed(key: char, set: Seq<char>) -> Seq<char> {
    seq![key, '('] + set + seq![')']
}

/// Whether the focused workspace of a tree is not one that a single character
/// reaches in a set.
pub open spec fn without_key(tree: Node, set: Seq<char>) -> bool {
    match focused_workspace(tree) {
        Some(node) => match node.name {
            Some(name) => forall|key: char| name@ != #[trigger] keyed(key, set),
            None => true,
        },
        None => true,
    }
}

/// Whether there is a reason for a failure at the end of a dialogue, in what
/// was told last.
pub open spec fn has_reason(e: Dialogue, fault: Fault) -> bool {
    let n = e.asked.len() as int;
    &&& 0 < n <= e.replies.len()
    &&& match fault {
        Fault::Request => !fits(e.asked[n - 1], e.replies[n - 1]) && (e.replies[n - 1] is Failed
            || e.replies[n - 1] is Missing),
        Fault::Unexpected => !fits(e.asked[n - 1], e.replies[n - 1]) && !(e.replies[n - 1] is Failed
            || e.replies[n - 1] is Missing),
        Fault::Refused(command) => {
            &&& e.asked[n - 1] == Ask::Run(command)
            &&& e.replies[n - 1] matches Reply::Ran(outcomes)
            &&& exists|i: int| 0 <= i < outcomes@.len() && !#[trigger] outcomes@[i]
        },
        Fault::Corrupt => {
            &&& e.asked[n - 1] == Ask::Read(File::Assignments)
            &&& e.replies[n - 1] matches Reply::Text(text)
            &&& object_entries(text@) is None
        },
        Fault::NoFocusedOutput => {
            &&& n >= 2
            &&& e.asked[n - 2] == Ask::Outputs
            &&& e.replies[n - 2] matches Reply::Outputs(outputs)
            &&& nowhere_focused(outputs@)
        },
        Fault::NotConnected(_) => false,
        Fault::NoWindowToPin => {
            &&& e.asked[n - 1] == Ask::Tree
            &&& e.replies[n - 1] matches Reply::Tree(tree)
            &&& no_focused_window(tree)
        },
        Fault::NoWindowToUnpin => {
            &&& e.asked[n - 1] == Ask::Tree
            &&& e.replies[n - 1] matches Reply::Tree(tree)
            &&& no_focused_window(tree)
        },
        Fault::NoKey => {
            &&& n >= 2
            &&& e.asked[n - 2] == Ask::Tree
            &&& e.replies[n - 2] matches Reply::Tree(tree)
            &&& exists|set: Seq<char>| #[trigger] without_key(tree, set)
        },
    }
}

/// Whether an operation that failed had a reason.
pub open spec fn reasoned<A>(after: (Dialogue, Result<A, Halt>)) -> bool {
    match after.1 {
        Err(Halt::Failed(fault)) => has_reason(after.0, fault),
        _ => true,
    }
}

/// Whether an operation fails only for a reason.
pub open spec fn owns_up<A>(p: Program<A>) -> bool {
    forall|d: Dialogue| d.answered() ==> reasoned(#[trigger] p(d))
}

broadcast proof fn lemma_give_reasoned<A>(a: A)
    ensures
        #[trigger] owns_up(give(Ok(a))),
{
}

broadcast proof fn lemma_bind_reasoned<A, B>(p: Program<A>, f: spec_fn(A) -> Program<B>)
    requires
        owns_up(p),
        steady(p),
        forall|a: A| owns_up(#[trigger] f(a)),
    ensures
        #[trigger] owns_up(bind(p, f)),
{
    let q = bind(p, f);
    assert forall|d: Dialogue| d.answered() implies reasoned(#[trigger] q(d)) by {
        assert(keeps(d, Reply::Done, p(d), p(d.with(Reply::Done))));
        assert(reasoned(p(d)));
        let (e, r) = p(d);
        if let Ok(a) = r {
            assert(owns_up(f(a)));
            assert(reasoned(f(a)(e)));
        }
    }
}

broadcast proof fn lemma_caught_reasoned<A>(p: Program<A>)
    ensures
        #[trigger] owns_up(caught(p)),
{
}

broadcast proof fn lemma_perform_reasoned(request: Ask)
    requires
        forall|reply: Reply| fits(request, reply) ==> reply is Done,
    ensures
        #[trigger] owns_up(perform(request)),
{
    let p = perform(request);
    assert forall|d: Dialogue| d.answered() implies reasoned(#[trigger] p(d)) by {
        let e = p(d).0;
        assert(e == once_asked(d, request));
        assert(e.asked.last() == request);
    }
}

broadcast proof fn lemma_tell_reasoned(request: Ask)
    ensures
        #[trigger] owns_up(tell(request)),
{
}

broadcast proof fn lemma_run_reasoned(command: Seq<char>)
    ensures
        #[trigger] owns_up(run_program(command)),
{
    let p = run_program(command);
    assert forall|d: Dialogue| d.answered() implies reasoned(#[trigger] p(d)) by {
        let e = p(d).0;
        assert(e == once_asked(d, Ask::Run(command)));
        assert(e.asked.last() == Ask::Run(command));
    }
}

broadcast proof fn lemma_order_reasoned(command: Seq<char>)
    ensures
        #[trigger] owns_up(order_program(command)),
{
    let p = order_program(command);
    assert forall|d: Dialogue| d.answered() implies reasoned(#[trigger] p(d)) by {
        let e = p(d).0;
        assert(e == once_asked(d, Ask::Run(command)));
        assert(e.asked.last() == Ask::Run(command));
    }
}

broadcast proof fn lemma_attempt_reasoned(command: Seq<char>)
    ensures
        #[trigger] owns_up(attempt_program(command)),
{
}

broadcast proof fn lemma_run_all_reasoned(commands: Seq<Seq<char>>)
    ensures
        #[trigger] owns_up(run_all_program(commands)),
    decreases commands.len(),
{
    broadcast use {
        group_operations_steady,
        lemma_give_reasoned,
        lemma_bind_reasoned,
        lemma_run_reasoned,
    };

    if commands.len() > 0 {
        lemma_run_all_reasoned(commands.drop_last());
    }
}

broadcast group group_reasoned {
    group_operations_steady,
    lemma_give_reasoned,
    lemma_bind_reasoned,
    lemma_caught_reasoned,
    lemma_perform_reasoned,
    lemma_tell_reasoned,
    lemma_run_reasoned,
    lemma_order_reasoned,
    lemma_attempt_reasoned,
    lemma_run_all_reasoned,
}

proof fn lemma_nowhere_focused(d: Dialogue, e: Dialogue, display: Display)
    requires
        d.answered(),
        load_program()(d) == (e, Ok::<Display, Halt>(display)),
    ensures
        focused_monitor(display.monitors) is None ==> has_reason(e, Fault::NoFocusedOutput),
{
    assert(e == once_asked(once_asked(d, Ask::Outputs), Ask::Read(File::Assignments)));
    let n = e.asked.len() as int;
    assert(e.asked[n - 2] == Ask::Outputs);
    if let Reply::Outputs(outputs) = e.replies[n - 2] {
        law_focused_monitor_is_on_the_output_with_the_focus(outputs@);
    }
}

proof fn lemma_without_key(tree: Node, set: Seq<char>)
    requires
        pin_key(None, tree, set) is None,
    ensures
        without_key(tree, set),
{
    if let Some(node) = focused_workspace(tree) {
        if let Some(name) = node.name {
            assert forall|key: char| name@ != #[trigger] keyed(key, set) by {
                law_key_is_the_one_character_before_the_set(name@, set, key);
            }
        }
    }
}

proof fn lemma_assignments_reasoned()
    ensures
        owns_up(assignments_program()),
{
    let p = assignments_program();
    assert forall|d: Dialogue| d.answered() implies reasoned(#[trigger] p(d)) by {
        let e = p(d).0;
        assert(e == once_asked(d, Ask::Read(File::Assignments)));
        assert(e.asked.last() == Ask::Read(File::Assignments));
    }
}

broadcast proof fn lemma_save_assignments_reasoned(shown: TextMap)
    ensures
        #[trigger] owns_up(save_assignments_program(shown)),
{
    broadcast use group_reasoned;

}

proof fn lemma_list_sets_reasoned()
    ensures
        owns_up(list_sets_program()),
{
    let p = list_sets_program();
    assert forall|d: Dialogue| d.answered() implies reasoned(#[trigger] p(d)) by {
        let e = p(d).0;
        assert(e == once_asked(d, Ask::Read(File::Sets)));
        assert(e.asked.last() == Ask::Read(File::Sets));
    }
}

broadcast proof fn lemma_save_sets_reasoned(sets: Seq<Seq<char>>)
    ensures
        #[trigger] owns_up(save_sets_program(sets)),
{
    broadcast use group_reasoned;

}

broadcast proof fn lemma_touch_set_reasoned(name: Seq<char>)
    ensures
        #[trigger] owns_up(touch_set_program(name)),
{
    broadcast use {group_reasoned, lemma_save_sets_reasoned};

    lemma_fixed_operations_steady();
    lemma_list_sets_reasoned();
}

proof fn lemma_last_workspaces_reasoned()
    ensures
        owns_up(last_workspaces_program()),
{
    let p = last_workspaces_program();
    assert forall|d: Dialogue| d.answered() implies reasoned(#[trigger] p(d)) by {
        let e = p(d).0;
        assert(e == once_asked(d, Ask::Read(File::Last)));
        assert(e.asked.last() == Ask::Read(File::Last));
    }
}

broadcast proof fn lemma_save_last_workspaces_reasoned(last: TextMap)
    ensures
        #[trigger] owns_up(save_last_workspaces_program(last)),
{
    broadcast use group_reasoned;

}

broadcast proof fn lemma_last_workspace_reasoned(set: Seq<char>)
    ensures
        #[trigger] owns_up(last_workspace_program(set)),
{
    broadcast use group_reasoned;

    lemma_fixed_operations_steady();
    lemma_last_workspaces_reasoned();
}

broadcast proof fn lemma_remember_workspace_reasoned(set: Seq<char>, workspace: Option<Seq<char>>)
    ensures
        #[trigger] owns_up(remember_workspace_program(set, workspace)),
{
    broadcast use {group_reasoned, lemma_save_last_workspaces_reasoned};

    lemma_fixed_operations_steady();
    lemma_last_workspaces_reasoned();
}

broadcast proof fn lemma_save_ice_reasoned(set: Seq<char>, snapshots: Seq<Snapshot>)
    ensures
        #[trigger] owns_up(save_ice_program(set, snapshots)),
{
    broadcast use group_reasoned;

}

broadcast proof fn lemma_load_ice_reasoned(set: Seq<char>)
    ensures
        #[trigger] owns_up(load_ice_program(set)),
{
    let p = load_ice_program(set);
    assert forall|d: Dialogue| d.answered() implies reasoned(#[trigger] p(d)) by {
        let e = p(d).0;
        assert(e == once_asked(d, Ask::ReadIce(ice_name(set))));
        assert(e.asked.last() == Ask::ReadIce(ice_name(set)));
    }
}

broadcast proof fn lemma_remove_ice_reasoned(set: Seq<char>)
    ensures
        #[trigger] owns_up(remove_ice_program(set)),
{
    broadcast use group_reasoned;

}

proof fn lemma_list_iced_reasoned()
    ensures
        owns_up(list_iced_program()),
{
    let p = list_iced_program();
    assert forall|d: Dialogue| d.answered() implies reasoned(#[trigger] p(d)) by {
        let e = p(d).0;
        assert(e == once_asked(d, Ask::ListIced));
        assert(e.asked.last() == Ask::ListIced);
    }
}

proof fn lemma_pins_reasoned()
    ensures
        owns_up(pins_program()),
{
    let p = pins_program();
    assert forall|d: Dialogue| d.answered() implies reasoned(#[trigger] p(d)) by {
        let e = p(d).0;
        assert(e == once_asked(d, Ask::ReadPins));
        assert(e.asked.last() == Ask::ReadPins);
    }
}

broadcast proof fn lemma_save_pins_reasoned(pins: Seq<Pin>)
    ensures
        #[trigger] owns_up(save_pins_program(pins)),
{
    broadcast use group_reasoned;

}

broadcast proof fn lemma_set_pending_target_reasoned(set: Seq<char>)
    ensures
        #[trigger] owns_up(set_pending_target_program(set)),
{
    broadcast use group_reasoned;

}

proof fn lemma_get_pending_target_reasoned()
    ensures
        owns_up(get_pending_target_program()),
{
    let p = get_pending_target_program();
    assert forall|d: Dialogue| d.answered() implies reasoned(#[trigger] p(d)) by {
        let e = p(d).0;
        assert(e == once_asked(d, Ask::Read(File::Pending)));
        assert(e.asked.last() == Ask::Read(File::Pending));
    }
}

proof fn lemma_clear_pending_target_reasoned()
    ensures
        owns_up(clear_pending_target_program()),
{
    broadcast use group_reasoned;

}

proof fn lemma_tree_reasoned()
    ensures
        owns_up(tree_program()),
{
    let p = tree_program();
    assert forall|d: Dialogue| d.answered() implies reasoned(#[trigger] p(d)) by {
        let e = p(d).0;
        assert(e == once_asked(d, Ask::Tree));
        assert(e.asked.last() == Ask::Tree);
    }
}

proof fn lemma_workspaces_reasoned()
    ensures
        owns_up(workspaces_program()),
{
    let p = workspaces_program();
    assert forall|d: Dialogue| d.answered() implies reasoned(#[trigger] p(d)) by {
        let e = p(d).0;
        assert(e == once_asked(d, Ask::Workspaces));
        assert(e.asked.last() == Ask::Workspaces);
    }
}

broadcast proof fn lemma_select_reasoned(prompt: Seq<char>, options: Seq<Seq<char>>)
    ensures
        #[trigger] owns_up(select_program(prompt, options)),
{
    let p = select_program(prompt, options);
    assert forall|d: Dialogue| d.answered() implies reasoned(#[trigger] p(d)) by {
        let e = p(d).0;
        assert(e == once_asked(d, Ask::Select { prompt, options: joined(options, "\n"@) }));
        assert(e.asked.last() == Ask::Select { prompt, options: joined(options, "\n"@) });
    }
}

proof fn lemma_load_reasoned()
    ensures
        owns_up(load_program()),
{
    let p = load_program();
    assert forall|d: Dialogue| d.answered() implies reasoned(#[trigger] p(d)) by {
        let e = once_asked(d, Ask::Outputs);
        assert(e.asked.last() == Ask::Outputs);
        if e.answered() && e.replies[e.asked.len() - 1] is Outputs {
            let q = assignments_program();
            lemma_assignments_reasoned();
            assert(reasoned(q(e)));
        }
    }
}

broadcast proof fn lemma_focused_set_reasoned(display: Display)
    requires
        focused_monitor(display.monitors) is Some,
    ensures
        #[trigger] owns_up(focused_set_program(display)),
{
    broadcast use group_reasoned;

    lemma_fixed_operations_steady();
    lemma_list_sets_reasoned();
}

proof fn lemma_current_set_reasoned()
    ensures
        owns_up(current_set_program()),
{
    let p = current_set_program();
    assert forall|d: Dialogue| d.answered() implies reasoned(#[trigger] p(d)) by {
        let (e, r) = load_program()(d);
        lemma_load_steady();
        lemma_grows(load_program(), d);
        lemma_load_reasoned();
        assert(reasoned(load_program()(d)));
        if let Ok(display) = r {
            lemma_nowhere_focused(d, e, display);
            if focused_monitor(display.monitors) is Some {
                lemma_focused_set_reasoned(display);
                assert(reasoned(focused_set_program(display)(e)));
            }
        }
    }
}

broadcast proof fn lemma_move_all_reasoned(ids: Seq<i64>, workspace: Seq<char>)
    ensures
        #[trigger] owns_up(move_all_program(ids, workspace)),
    decreases ids.len(),
{
    broadcast use group_reasoned;

    if ids.len() > 0 {
        lemma_move_all_reasoned(ids.drop_last(), workspace);
    }
}

broadcast proof fn lemma_restore_node_reasoned(node: Tree, workspace: Seq<char>, is_first: bool)
    ensures
        #[trigger] owns_up(restore_node_program(node, workspace, is_first)),
    decreases node,
{
    broadcast use group_reasoned;

    if let Tree::Container { layout, children } = node {
        lemma_restore_children_reasoned(children, layout, workspace, is_first);
    }
}

broadcast proof fn lemma_restore_children_reasoned(
    children: Seq<Tree>,
    layout: Seq<char>,
    workspace: Seq<char>,
    is_first: bool,
)
    ensures
        #[trigger] owns_up(restore_children_program(children, layout, workspace, is_first)),
    decreases children,
{
    broadcast use group_reasoned;

    if children.len() > 0 {
        lemma_restore_children_reasoned(children.drop_last(), layout, workspace, is_first);
        lemma_restore_node_reasoned(children.last(), workspace, is_first && children.len() == 1);
    }
}

broadcast proof fn lemma_restore_tree_reasoned(tree: Seq<Tree>, workspace: Seq<char>)
    ensures
        #[trigger] owns_up(restore_tree_program(tree, workspace)),
    decreases tree.len(),
{
    broadcast use {group_reasoned, lemma_restore_node_reasoned};

    if tree.len() > 0 {
        lemma_restore_tree_reasoned(tree.drop_last(), workspace);
    }
}

broadcast proof fn lemma_restore_all_reasoned(snapshots: Seq<Snapshot>)
    ensures
        #[trigger] owns_up(restore_all_program(snapshots)),
    decreases snapshots.len(),
{
    broadcast use {group_reasoned, lemma_restore_tree_reasoned};

    if snapshots.len() > 0 {
        lemma_restore_all_reasoned(snapshots.drop_last());
    }
}

broadcast proof fn lemma_park_reasoned(set: Seq<char>, snapshots: Seq<Snapshot>, ids: Seq<i64>)
    ensures
        #[trigger] owns_up(park_program(set, snapshots, ids)),
{
    broadcast use {group_reasoned, lemma_save_ice_reasoned, lemma_move_all_reasoned};

}

broadcast proof fn lemma_ice_set_reasoned(set: Seq<char>)
    ensures
        #[trigger] owns_up(ice_set_program(set)),
{
    broadcast use {group_reasoned, lemma_park_reasoned};

    lemma_fixed_operations_steady();
    lemma_tree_reasoned();
    lemma_pins_reasoned();
}

broadcast proof fn lemma_thaw_set_reasoned(set: Seq<char>)
    ensures
        #[trigger] owns_up(thaw_set_program(set)),
{
    broadcast use {
        group_reasoned,
        lemma_load_ice_reasoned,
        lemma_restore_all_reasoned,
        lemma_remove_ice_reasoned,
    };

}

broadcast proof fn lemma_thaw_if_iced_reasoned(set: Seq<char>)
    ensures
        #[trigger] owns_up(thaw_if_iced_program(set)),
{
    broadcast use {group_reasoned, lemma_thaw_set_reasoned};

    lemma_fixed_operations_steady();
    lemma_list_iced_reasoned();
}

broadcast proof fn lemma_bring_reasoned(set: Seq<char>, monitor: Screen)
    ensures
        #[trigger] owns_up(bring_program(set, monitor)),
{
    broadcast use {group_reasoned, lemma_thaw_if_iced_reasoned};

    lemma_fixed_operations_steady();
    lemma_workspaces_reasoned();
}

broadcast proof fn lemma_show_reasoned(monitor: Screen, workspace: Seq<char>)
    ensures
        #[trigger] owns_up(show_program(monitor, workspace)),
{
    broadcast use group_reasoned;

}

broadcast proof fn lemma_claim_reasoned(display: Display, here: Screen)
    requires
        focused_monitor(display.monitors) is Some,
    ensures
        #[trigger] owns_up(claim_program(display, here)),
{
    broadcast use {
        group_reasoned,
        lemma_focused_set_reasoned,
        lemma_save_assignments_reasoned,
        lemma_touch_set_reasoned,
        lemma_bring_reasoned,
    };

}

proof fn lemma_ensure_set_reasoned()
    ensures
        owns_up(ensure_set_program()),
{
    let p = ensure_set_program();
    assert forall|d: Dialogue| d.answered() implies reasoned(#[trigger] p(d)) by {
        let (e, r) = load_program()(d);
        lemma_load_steady();
        lemma_grows(load_program(), d);
        lemma_load_reasoned();
        assert(reasoned(load_program()(d)));
        if let Ok(display) = r {
            lemma_nowhere_focused(d, e, display);
            if let Some(here) = focused_monitor(display.monitors) {
                lemma_claim_reasoned(display, here);
                assert(reasoned(claim_program(display, here)(e)));
            }
        }
    }
}

broadcast proof fn lemma_swap_reasoned(
    display: Display,
    here: Screen,
    monitor: Seq<char>,
    old: Seq<char>,
    set: Seq<char>,
)
    requires
        monitor_by_id(display.monitors, monitor) is Some,
    ensures
        #[trigger] owns_up(swap_program(display, here, monitor, old, set)),
{
    broadcast use {
        group_reasoned,
        lemma_save_assignments_reasoned,
        lemma_remember_workspace_reasoned,
        lemma_last_workspace_reasoned,
        lemma_exchange_reasoned,
    };

}

broadcast proof fn lemma_exchange_reasoned(
    here: Screen,
    there: Screen,
    old: Seq<char>,
    set: Seq<char>,
    leaving: Option<Seq<char>>,
    arriving: Option<Seq<char>>,
)
    ensures
        #[trigger] owns_up(exchange_program(here, there, old, set, leaving, arriving)),
{
    broadcast use {group_reasoned, lemma_bring_reasoned, lemma_show_reasoned};

}

broadcast proof fn lemma_replace_reasoned(
    display: Display,
    here: Screen,
    old: Seq<char>,
    set: Seq<char>,
)
    ensures
        #[trigger] owns_up(replace_program(display, here, old, set)),
{
    broadcast use {
        group_reasoned,
        lemma_remember_workspace_reasoned,
        lemma_ice_set_reasoned,
        lemma_save_assignments_reasoned,
        lemma_last_workspace_reasoned,
        lemma_bring_reasoned,
        lemma_show_reasoned,
    };

}

broadcast proof fn lemma_carry_out_reasoned(
    display: Display,
    here: Screen,
    set: Seq<char>,
    plan: Planned,
)
    requires
        match plan {
            Planned::Swap { monitor, .. } => monitor_by_id(display.monitors, monitor) is Some,
            _ => true,
        },
    ensures
        #[trigger] owns_up(carry_out_program(display, here, set, plan)),
{
    broadcast use {group_reasoned, lemma_swap_reasoned, lemma_replace_reasoned};

}

/// What is left to do once it is known what the monitors show.
spec fn carrying_out(
    display: Display,
    here: Screen,
    current: Seq<char>,
    set: Seq<char>,
) -> Program<()> {
    bind(
        touch_set_program(set),
        |u: ()|
            bind(
                carry_out_program(
                    display,
                    here,
                    set,
                    planned(display.shown, here.id, current, set, ids_of(display.monitors)),
                ),
                |u: ()| carry_pins_program(set),
            ),
    )
}

proof fn lemma_carrying_out_reasoned(
    display: Display,
    here: Screen,
    current: Seq<char>,
    set: Seq<char>,
)
    ensures
        owns_up(carrying_out(display, here, current, set)),
{
    broadcast use {group_reasoned, lemma_touch_set_reasoned, lemma_carry_pins_reasoned};

    let ids = ids_of(display.monitors);
    let plan = planned(display.shown, here.id, current, set, ids);
    law_plan_follows_who_shows_the_set(display.shown, here.id, current, set, ids);
    if let Planned::Swap { monitor, .. } = plan {
        law_monitor_is_found_by_its_identifier(display.monitors, monitor);
        let i = choose|i: int|
            {
                &&& 0 <= i < ids.len()
                &&& #[trigger] ids[i] == monitor
                &&& forall|j: int|
                    0 <= j < i && #[trigger] ids[j] != here.id ==> display.shown.get(ids[j])
                        != Some(set)
            };
        assert(ids[i] == display.monitors[i].id);
    }
    lemma_carry_out_reasoned(display, here, set, plan);
}

broadcast proof fn lemma_change_set_reasoned(set: Seq<char>)
    ensures
        #[trigger] owns_up(change_set_program(set)),
{
    let p = change_set_program(set);
    assert forall|d: Dialogue| d.answered() implies reasoned(#[trigger] p(d)) by {
        let (d1, r1) = ensure_set_program()(d);
        lemma_ensure_set_steady();
        lemma_grows(ensure_set_program(), d);
        lemma_ensure_set_reasoned();
        assert(reasoned(ensure_set_program()(d)));
        if let Ok(current) = r1 {
            let (d2, r2) = load_program()(d1);
            lemma_load_steady();
            lemma_grows(load_program(), d1);
            lemma_load_reasoned();
            assert(reasoned(load_program()(d1)));
            if let Ok(display) = r2 {
                lemma_nowhere_focused(d1, d2, display);
                if let Some(here) = focused_monitor(display.monitors) {
                    let q = carrying_out(display, here, current, set);
                    lemma_carrying_out_reasoned(display, here, current, set);
                    assert(reasoned(q(d2)));
                }
            }
        }
    }
}

broadcast proof fn lemma_place_pin_reasoned(pin: Pin, set: Seq<char>)
    ensures
        #[trigger] owns_up(place_pin_program(pin, set)),
{
    broadcast use group_reasoned;

    lemma_fixed_operations_steady();
    lemma_tree_reasoned();
}

broadcast proof fn lemma_place_pins_reasoned(pins: Seq<Pin>, set: Seq<char>)
    ensures
        #[trigger] owns_up(place_pins_program(pins, set)),
    decreases pins.len(),
{
    broadcast use {group_reasoned, lemma_place_pin_reasoned};

    if pins.len() > 0 {
        lemma_place_pins_reasoned(pins.drop_last(), set);
    }
}

broadcast proof fn lemma_carry_pins_reasoned(set: Seq<char>)
    ensures
        #[trigger] owns_up(carry_pins_program(set)),
{
    broadcast use {group_reasoned, lemma_save_pins_reasoned, lemma_place_pins_reasoned};

    lemma_fixed_operations_steady();
    lemma_pins_reasoned();
    lemma_tree_reasoned();
}

proof fn lemma_prune_sets_reasoned()
    ensures
        owns_up(prune_sets_program()),
{
    broadcast use {group_reasoned, lemma_keep_sets_reasoned};

    lemma_fixed_operations_steady();
    lemma_load_reasoned();
    lemma_workspaces_reasoned();
    lemma_list_sets_reasoned();
    lemma_list_iced_reasoned();
}

broadcast proof fn lemma_keep_sets_reasoned(sets: Seq<Seq<char>>)
    ensures
        #[trigger] owns_up(keep_sets_program(sets)),
{
    broadcast use {group_reasoned, lemma_save_sets_reasoned, lemma_save_last_workspaces_reasoned};

    lemma_fixed_operations_steady();
    lemma_last_workspaces_reasoned();
}

broadcast proof fn lemma_switch_reasoned(key: char)
    ensures
        #[trigger] owns_up(switch_program(key)),
{
    broadcast use group_reasoned;

    lemma_fixed_operations_steady();
    lemma_ensure_set_reasoned();
}

broadcast proof fn lemma_move_reasoned(key: char)
    ensures
        #[trigger] owns_up(move_program(key)),
{
    broadcast use group_reasoned;

    lemma_fixed_operations_steady();
    lemma_ensure_set_reasoned();
}

proof fn lemma_set_menu_reasoned()
    ensures
        owns_up(set_menu_program()),
{
    broadcast use {group_reasoned, lemma_select_reasoned, lemma_change_set_reasoned};

    lemma_fixed_operations_steady();
    lemma_ensure_set_reasoned();
    lemma_prune_sets_reasoned();
}

broadcast proof fn lemma_set_or_current_reasoned(set: Option<Seq<char>>)
    ensures
        #[trigger] owns_up(set_or_current_program(set)),
{
    broadcast use group_reasoned;

    lemma_fixed_operations_steady();
    lemma_current_set_reasoned();
}

broadcast proof fn lemma_ice_reasoned(set: Option<Seq<char>>)
    ensures
        #[trigger] owns_up(ice_program(set)),
{
    broadcast use {group_reasoned, lemma_set_or_current_reasoned, lemma_ice_set_reasoned};

}

broadcast proof fn lemma_thaw_or_say_reasoned(set: Seq<char>, otherwise: Seq<char>)
    ensures
        #[trigger] owns_up(thaw_or_say_program(set, otherwise)),
{
    broadcast use {group_reasoned, lemma_thaw_set_reasoned};

}

broadcast proof fn lemma_thaw_reasoned(set: Option<Seq<char>>)
    ensures
        #[trigger] owns_up(thaw_program(set)),
{
    broadcast use {group_reasoned, lemma_set_or_current_reasoned, lemma_thaw_or_say_reasoned};

}

proof fn lemma_ice_menu_reasoned()
    ensures
        owns_up(ice_menu_program()),
{
    broadcast use {group_reasoned, lemma_select_reasoned, lemma_thaw_or_say_reasoned};

    lemma_fixed_operations_steady();
    lemma_list_iced_reasoned();
}

proof fn lemma_move_to_set_reasoned()
    ensures
        owns_up(move_to_set_program()),
{
    broadcast use {
        group_reasoned,
        lemma_select_reasoned,
        lemma_touch_set_reasoned,
        lemma_set_pending_target_reasoned,
    };

    lemma_fixed_operations_steady();
    lemma_prune_sets_reasoned();
}

broadcast proof fn lemma_deliver_snapshot_reasoned(
    snapshot: Snapshot,
    set: Seq<char>,
    workspace: Seq<char>,
)
    ensures
        #[trigger] owns_up(deliver_snapshot_program(snapshot, set, workspace)),
{
    broadcast use {
        group_reasoned,
        lemma_load_ice_reasoned,
        lemma_park_reasoned,
        lemma_move_all_reasoned,
    };

    lemma_fixed_operations_steady();
    lemma_list_iced_reasoned();
}

broadcast proof fn lemma_deliver_to_reasoned(set: Seq<char>, key: char)
    ensures
        #[trigger] owns_up(deliver_to_program(set, key)),
{
    broadcast use {group_reasoned, lemma_deliver_snapshot_reasoned};

    lemma_fixed_operations_steady();
    lemma_tree_reasoned();
}

broadcast proof fn lemma_deliver_reasoned(key: char)
    ensures
        #[trigger] owns_up(deliver_program(key)),
{
    broadcast use {group_reasoned, lemma_deliver_to_reasoned};

    lemma_fixed_operations_steady();
    lemma_get_pending_target_reasoned();
    lemma_clear_pending_target_reasoned();
}

proof fn lemma_pin_window_reasoned(
    con_id: i64,
    key: Option<char>,
    tree: Node,
    set: Seq<char>,
    d: Dialogue,
)
    requires
        d.answered(),
        d.asked.len() > 0,
        d.asked.last() == Ask::Tree,
        d.replies[d.asked.len() - 1] == Reply::Tree(tree),
    ensures
        reasoned(pin_window_program(con_id, key, tree, set)(d)),
{
    broadcast use group_reasoned;

    let (e, r) = pins_program()(d);
    lemma_pins_steady();
    lemma_grows(pins_program(), d);
    lemma_pins_reasoned();
    assert(reasoned(pins_program()(d)));
    if let Ok(pins) = r {
        let rest = unpinned_from(pins, con_id);
        assert(e == once_asked(d, Ask::ReadPins));
        if key is None && pinned_windows(pins).contains(con_id) {
            let q = bind(save_pins_program(rest), |u: ()| tell(Ask::Notify("Unpinned"@)));
            lemma_save_pins_reasoned(rest);
            assert(owns_up(q));
            assert(reasoned(q(e)));
        } else if let Some(key) = pin_key(key, tree, set) {
            lemma_save_pins_reasoned(rest.push(Pin { con_id, key }));
            lemma_carry_pins_reasoned(set);
            let q = bind(
                save_pins_program(rest.push(Pin { con_id, key })),
                |u: ()|
                    bind(
                        carry_pins_program(set),
                        |u: ()| tell(Ask::Notify(pinned_notice(upper(key)))),
                    ),
            );
            assert(owns_up(q));
            assert(reasoned(q(e)));
        } else {
            lemma_without_key(tree, set);
            assert(e.asked[e.asked.len() - 2] == Ask::Tree);
        }
    }
}

broadcast proof fn lemma_pin_reasoned(key: Option<char>)
    ensures
        #[trigger] owns_up(pin_program(key)),
{
    let p = pin_program(key);
    assert forall|d: Dialogue| d.answered() implies reasoned(#[trigger] p(d)) by {
        let (m, r) = ensure_set_program()(d);
        lemma_ensure_set_steady();
        lemma_grows(ensure_set_program(), d);
        lemma_ensure_set_reasoned();
        assert(reasoned(ensure_set_program()(d)));
        if let Ok(set) = r {
            let (m1, r1) = tree_program()(m);
            lemma_tree_steady();
            lemma_grows(tree_program(), m);
            lemma_tree_reasoned();
            assert(reasoned(tree_program()(m)));
            if let Ok(tree) = r1 {
                assert(m1 == once_asked(m, Ask::Tree));
                law_focused_window_is_found_wherever_it_stands(tree);
                if let Some(con_id) = focused_window(tree) {
                    lemma_pin_window_reasoned(con_id, key, tree, set, m1);
                }
            }
        }
    }
}

proof fn lemma_unpin_reasoned()
    ensures
        owns_up(unpin_program()),
{
    let p = unpin_program();
    assert forall|d: Dialogue| d.answered() implies reasoned(#[trigger] p(d)) by {
        let (m1, r1) = tree_program()(d);
        lemma_tree_steady();
        lemma_grows(tree_program(), d);
        lemma_tree_reasoned();
        assert(reasoned(tree_program()(d)));
        if let Ok(tree) = r1 {
            law_focused_window_is_found_wherever_it_stands(tree);
            if let Some(con_id) = focused_window(tree) {
                let (m2, r2) = pins_program()(m1);
                lemma_pins_steady();
                lemma_grows(pins_program(), m1);
                lemma_pins_reasoned();
                assert(reasoned(pins_program()(m1)));
                if let Ok(pins) = r2 {
                    let q = save_pins_program(unpinned_from(pins, con_id));
                    lemma_save_pins_reasoned(unpinned_from(pins, con_id));
                    assert(reasoned(q(m2)));
                }
            }
        }
    }
}

proof fn lemma_current_reasoned()
    ensures
        owns_up(current_program()),
{
    broadcast use group_reasoned;

    lemma_fixed_operations_steady();
    lemma_current_set_reasoned();
}

broadcast proof fn lemma_print_all_reasoned(lines: Seq<Seq<char>>)
    ensures
        #[trigger] owns_up(print_all_program(lines)),
    decreases lines.len(),
{
    broadcast use group_reasoned;

    if lines.len() > 0 {
        lemma_print_all_reasoned(lines.drop_last());
    }
}

proof fn lemma_print_iced_reasoned()
    ensures
        owns_up(print_iced_program()),
{
    broadcast use {group_reasoned, lemma_print_all_reasoned};

    lemma_fixed_operations_steady();
    lemma_list_iced_reasoned();
}

broadcast proof fn lemma_obey_reasoned(intent: Intent)
    ensures
        #[trigger] owns_up(obey_program(intent)),
{
    broadcast use {
        group_reasoned,
        lemma_switch_reasoned,
        lemma_move_reasoned,
        lemma_change_set_reasoned,
        lemma_ice_reasoned,
        lemma_thaw_reasoned,
        lemma_deliver_reasoned,
        lemma_pin_reasoned,
    };

    lemma_fixed_operations_steady();
    lemma_set_menu_reasoned();
    lemma_ice_menu_reasoned();
    lemma_move_to_set_reasoned();
    lemma_unpin_reasoned();
    lemma_current_reasoned();
    lemma_print_iced_reasoned();
}

/// A command fails only for a reason that was told last: a reply that does not
/// fit its request, a command that sway refused, assignments that cannot be
/// read, or where no output, no window or no key is there. So where every reply
/// fits, it is carried out.
pub proof fn law_commands_fail_only_for_a_reason(intent: Intent, d: Dialogue)
    requires
        d.answered(),
    ensures
        match obey_program(intent)(d).1 {
            Err(Halt::Failed(fault)) => has_reason(obey_program(intent)(d).0, fault),
            _ => true,
        },
{
    let p = obey_program(intent);
    lemma_obey_reasoned(intent);
    assert(reasoned(p(d)));
}

} // verus!
