//! Every operation can be run again with one more reply and goes on from where
//! it stopped.

use crate::assignments::Planned;
use crate::change::{
    bring_program, carry_out_program, carry_pins_program, change_set_program, claim_program,
    ensure_set_program, exchange_program, keep_sets_program, place_pin_program, place_pins_program,
    prune_sets_program, replace_program, show_program, swap_program, thaw_if_iced_program,
};
use crate::command::{
    current_program, deliver_program, deliver_snapshot_program, deliver_to_program,
    ice_menu_program, ice_program, move_program, move_to_set_program, obey_program, pin_program,
    pin_window_program, print_all_program, print_iced_program, set_menu_program,
    set_or_current_program, switch_program, thaw_or_say_program, thaw_program, unpin_program,
    Intent,
};
use crate::dialogue::{group_requests_steady, steady};
use crate::freeze::{
    ice_set_program, move_all_program, park_program, restore_all_program, restore_children_program,
    restore_node_program, restore_tree_program, thaw_set_program,
};
use crate::pins::Pin;
use crate::screens::{current_set_program, focused_set_program, load_program, Display, Screen};
use crate::snapshot::{Snapshot, Tree};
use crate::state::{
    assignments_program, clear_pending_target_program, get_pending_target_program,
    last_workspace_program, last_workspaces_program, list_iced_program, list_sets_program,
    load_ice_program, pins_program, remember_workspace_program, remove_ice_program,
    save_assignments_program, save_ice_program, save_last_workspaces_program, save_pins_program,
    save_sets_program, select_program, set_pending_target_program, touch_set_program, tree_program,
    workspaces_program,
};
use crate::string_map::TextMap;
use crate::tree::Node;
use vstd::prelude::*;

verus! {

pub proof fn lemma_assignments_steady()
    ensures
        steady(assignments_program()),
{
    broadcast use group_requests_steady;

}

pub broadcast proof fn lemma_save_assignments_steady(shown: TextMap)
    ensures
        #[trigger] steady(save_assignments_program(shown)),
{
    broadcast use group_requests_steady;

}

pub proof fn lemma_list_sets_steady()
    ensures
        steady(list_sets_program()),
{
    broadcast use group_requests_steady;

}

pub broadcast proof fn lemma_save_sets_steady(sets: Seq<Seq<char>>)
    ensures
        #[trigger] steady(save_sets_program(sets)),
{
    broadcast use group_requests_steady;

}

pub broadcast proof fn lemma_touch_set_steady(name: Seq<char>)
    ensures
        #[trigger] steady(touch_set_program(name)),
{
    broadcast use {group_requests_steady, lemma_save_sets_steady};

    lemma_list_sets_steady();
}

pub proof fn lemma_last_workspaces_steady()
    ensures
        steady(last_workspaces_program()),
{
    broadcast use group_requests_steady;

}

pub broadcast proof fn lemma_save_last_workspaces_steady(last: TextMap)
    ensures
        #[trigger] steady(save_last_workspaces_program(last)),
{
    broadcast use group_requests_steady;

}

pub broadcast proof fn lemma_last_workspace_steady(set: Seq<char>)
    ensures
        #[trigger] steady(last_workspace_program(set)),
{
    broadcast use group_requests_steady;

    lemma_last_workspaces_steady();
}

pub broadcast proof fn lemma_remember_workspace_steady(set: Seq<char>, workspace: Option<Seq<char>>)
    ensures
        #[trigger] steady(remember_workspace_program(set, workspace)),
{
    broadcast use {group_requests_steady, lemma_save_last_workspaces_steady};

    lemma_last_workspaces_steady();
}

pub broadcast proof fn lemma_save_ice_steady(set: Seq<char>, snapshots: Seq<Snapshot>)
    ensures
        #[trigger] steady(save_ice_program(set, snapshots)),
{
    broadcast use group_requests_steady;

}

pub broadcast proof fn lemma_load_ice_steady(set: Seq<char>)
    ensures
        #[trigger] steady(load_ice_program(set)),
{
    broadcast use group_requests_steady;

}

pub broadcast proof fn lemma_remove_ice_steady(set: Seq<char>)
    ensures
        #[trigger] steady(remove_ice_program(set)),
{
    broadcast use group_requests_steady;

}

pub proof fn lemma_list_iced_steady()
    ensures
        steady(list_iced_program()),
{
    broadcast use group_requests_steady;

}

pub proof fn lemma_pins_steady()
    ensures
        steady(pins_program()),
{
    broadcast use group_requests_steady;

}

pub broadcast proof fn lemma_save_pins_steady(pins: Seq<Pin>)
    ensures
        #[trigger] steady(save_pins_program(pins)),
{
    broadcast use group_requests_steady;

}

pub broadcast proof fn lemma_set_pending_target_steady(set: Seq<char>)
    ensures
        #[trigger] steady(set_pending_target_program(set)),
{
    broadcast use group_requests_steady;

}

pub proof fn lemma_get_pending_target_steady()
    ensures
        steady(get_pending_target_program()),
{
    broadcast use group_requests_steady;

}

pub proof fn lemma_clear_pending_target_steady()
    ensures
        steady(clear_pending_target_program()),
{
    broadcast use group_requests_steady;

}

pub proof fn lemma_tree_steady()
    ensures
        steady(tree_program()),
{
    broadcast use group_requests_steady;

}

pub proof fn lemma_workspaces_steady()
    ensures
        steady(workspaces_program()),
{
    broadcast use group_requests_steady;

}

pub broadcast proof fn lemma_select_steady(prompt: Seq<char>, options: Seq<Seq<char>>)
    ensures
        #[trigger] steady(select_program(prompt, options)),
{
    broadcast use group_requests_steady;

}

pub proof fn lemma_load_steady()
    ensures
        steady(load_program()),
{
    broadcast use group_requests_steady;

    lemma_assignments_steady();
}

pub broadcast proof fn lemma_focused_set_steady(display: Display)
    ensures
        #[trigger] steady(focused_set_program(display)),
{
    broadcast use group_requests_steady;

    lemma_list_sets_steady();
}

pub proof fn lemma_current_set_steady()
    ensures
        steady(current_set_program()),
{
    broadcast use {group_requests_steady, lemma_focused_set_steady};

    lemma_load_steady();
}

pub broadcast proof fn lemma_move_all_steady(ids: Seq<i64>, workspace: Seq<char>)
    ensures
        #[trigger] steady(move_all_program(ids, workspace)),
    decreases ids.len(),
{
    broadcast use group_requests_steady;

    if ids.len() > 0 {
        lemma_move_all_steady(ids.drop_last(), workspace);
    }
}

pub broadcast proof fn lemma_restore_node_steady(node: Tree, workspace: Seq<char>, is_first: bool)
    ensures
        #[trigger] steady(restore_node_program(node, workspace, is_first)),
    decreases node,
{
    broadcast use group_requests_steady;

    if let Tree::Container { layout, children } = node {
        lemma_restore_children_steady(children, layout, workspace, is_first);
    }
}

pub broadcast proof fn lemma_restore_children_steady(
    children: Seq<Tree>,
    layout: Seq<char>,
    workspace: Seq<char>,
    is_first: bool,
)
    ensures
        #[trigger] steady(restore_children_program(children, layout, workspace, is_first)),
    decreases children,
{
    broadcast use group_requests_steady;

    if children.len() > 0 {
        lemma_restore_children_steady(children.drop_last(), layout, workspace, is_first);
        lemma_restore_node_steady(children.last(), workspace, is_first && children.len() == 1);
    }
}

pub broadcast proof fn lemma_restore_tree_steady(tree: Seq<Tree>, workspace: Seq<char>)
    ensures
        #[trigger] steady(restore_tree_program(tree, workspace)),
    decreases tree.len(),
{
    broadcast use {group_requests_steady, lemma_restore_node_steady};

    if tree.len() > 0 {
        lemma_restore_tree_steady(tree.drop_last(), workspace);
    }
}

pub broadcast proof fn lemma_restore_all_steady(snapshots: Seq<Snapshot>)
    ensures
        #[trigger] steady(restore_all_program(snapshots)),
    decreases snapshots.len(),
{
    broadcast use {group_requests_steady, lemma_restore_tree_steady};

    if snapshots.len() > 0 {
        lemma_restore_all_steady(snapshots.drop_last());
    }
}

pub broadcast proof fn lemma_park_steady(set: Seq<char>, snapshots: Seq<Snapshot>, ids: Seq<i64>)
    ensures
        #[trigger] steady(park_program(set, snapshots, ids)),
{
    broadcast use {group_requests_steady, lemma_save_ice_steady, lemma_move_all_steady};

}

pub broadcast proof fn lemma_ice_set_steady(set: Seq<char>)
    ensures
        #[trigger] steady(ice_set_program(set)),
{
    broadcast use {group_requests_steady, lemma_park_steady};

    lemma_tree_steady();
    lemma_pins_steady();
}

pub broadcast proof fn lemma_thaw_set_steady(set: Seq<char>)
    ensures
        #[trigger] steady(thaw_set_program(set)),
{
    broadcast use {
        group_requests_steady,
        lemma_load_ice_steady,
        lemma_restore_all_steady,
        lemma_remove_ice_steady,
    };

}

pub broadcast proof fn lemma_thaw_if_iced_steady(set: Seq<char>)
    ensures
        #[trigger] steady(thaw_if_iced_program(set)),
{
    broadcast use {group_requests_steady, lemma_thaw_set_steady};

    lemma_list_iced_steady();
}

pub broadcast proof fn lemma_bring_steady(set: Seq<char>, monitor: Screen)
    ensures
        #[trigger] steady(bring_program(set, monitor)),
{
    broadcast use {group_requests_steady, lemma_thaw_if_iced_steady};

    lemma_workspaces_steady();
}

pub broadcast proof fn lemma_show_steady(monitor: Screen, workspace: Seq<char>)
    ensures
        #[trigger] steady(show_program(monitor, workspace)),
{
    broadcast use group_requests_steady;

}

pub broadcast proof fn lemma_claim_steady(display: Display, here: Screen)
    ensures
        #[trigger] steady(claim_program(display, here)),
{
    broadcast use {
        group_requests_steady,
        lemma_focused_set_steady,
        lemma_save_assignments_steady,
        lemma_touch_set_steady,
        lemma_bring_steady,
    };

}

pub proof fn lemma_ensure_set_steady()
    ensures
        steady(ensure_set_program()),
{
    broadcast use {group_requests_steady, lemma_claim_steady};

    lemma_load_steady();
}

pub broadcast proof fn lemma_swap_steady(
    display: Display,
    here: Screen,
    monitor: Seq<char>,
    old: Seq<char>,
    set: Seq<char>,
)
    ensures
        #[trigger] steady(swap_program(display, here, monitor, old, set)),
{
    broadcast use {
        group_requests_steady,
        lemma_save_assignments_steady,
        lemma_remember_workspace_steady,
        lemma_last_workspace_steady,
        lemma_exchange_steady,
    };

}

pub broadcast proof fn lemma_exchange_steady(
    here: Screen,
    there: Screen,
    old: Seq<char>,
    set: Seq<char>,
    leaving: Option<Seq<char>>,
    arriving: Option<Seq<char>>,
)
    ensures
        #[trigger] steady(exchange_program(here, there, old, set, leaving, arriving)),
{
    broadcast use {group_requests_steady, lemma_bring_steady, lemma_show_steady};

}

pub broadcast proof fn lemma_replace_steady(
    display: Display,
    here: Screen,
    old: Seq<char>,
    set: Seq<char>,
)
    ensures
        #[trigger] steady(replace_program(display, here, old, set)),
{
    broadcast use {
        group_requests_steady,
        lemma_remember_workspace_steady,
        lemma_ice_set_steady,
        lemma_save_assignments_steady,
        lemma_last_workspace_steady,
        lemma_bring_steady,
        lemma_show_steady,
    };

}

pub broadcast proof fn lemma_carry_out_steady(
    display: Display,
    here: Screen,
    set: Seq<char>,
    plan: Planned,
)
    ensures
        #[trigger] steady(carry_out_program(display, here, set, plan)),
{
    broadcast use {group_requests_steady, lemma_swap_steady, lemma_replace_steady};

}

pub broadcast proof fn lemma_change_set_steady(set: Seq<char>)
    ensures
        #[trigger] steady(change_set_program(set)),
{
    broadcast use {
        group_requests_steady,
        lemma_touch_set_steady,
        lemma_carry_out_steady,
        lemma_carry_pins_steady,
    };

    lemma_ensure_set_steady();
    lemma_load_steady();
}

pub broadcast proof fn lemma_place_pin_steady(pin: Pin, set: Seq<char>)
    ensures
        #[trigger] steady(place_pin_program(pin, set)),
{
    broadcast use group_requests_steady;

    lemma_tree_steady();
}

pub broadcast proof fn lemma_place_pins_steady(pins: Seq<Pin>, set: Seq<char>)
    ensures
        #[trigger] steady(place_pins_program(pins, set)),
    decreases pins.len(),
{
    broadcast use {group_requests_steady, lemma_place_pin_steady};

    if pins.len() > 0 {
        lemma_place_pins_steady(pins.drop_last(), set);
    }
}

pub broadcast proof fn lemma_carry_pins_steady(set: Seq<char>)
    ensures
        #[trigger] steady(carry_pins_program(set)),
{
    broadcast use {group_requests_steady, lemma_save_pins_steady, lemma_place_pins_steady};

    lemma_pins_steady();
    lemma_tree_steady();
}

pub proof fn lemma_prune_sets_steady()
    ensures
        steady(prune_sets_program()),
{
    broadcast use {group_requests_steady, lemma_keep_sets_steady};

    lemma_load_steady();
    lemma_workspaces_steady();
    lemma_list_sets_steady();
    lemma_list_iced_steady();
}

pub broadcast proof fn lemma_keep_sets_steady(sets: Seq<Seq<char>>)
    ensures
        #[trigger] steady(keep_sets_program(sets)),
{
    broadcast use {
        group_requests_steady,
        lemma_save_sets_steady,
        lemma_save_last_workspaces_steady,
    };

    lemma_last_workspaces_steady();
}

pub broadcast proof fn lemma_switch_steady(key: char)
    ensures
        #[trigger] steady(switch_program(key)),
{
    broadcast use group_requests_steady;

    lemma_ensure_set_steady();
}

pub broadcast proof fn lemma_move_steady(key: char)
    ensures
        #[trigger] steady(move_program(key)),
{
    broadcast use group_requests_steady;

    lemma_ensure_set_steady();
}

pub proof fn lemma_set_menu_steady()
    ensures
        steady(set_menu_program()),
{
    broadcast use {group_requests_steady, lemma_select_steady, lemma_change_set_steady};

    lemma_ensure_set_steady();
    lemma_prune_sets_steady();
}

pub broadcast proof fn lemma_set_or_current_steady(set: Option<Seq<char>>)
    ensures
        #[trigger] steady(set_or_current_program(set)),
{
    broadcast use group_requests_steady;

    lemma_current_set_steady();
}

pub broadcast proof fn lemma_ice_steady(set: Option<Seq<char>>)
    ensures
        #[trigger] steady(ice_program(set)),
{
    broadcast use {group_requests_steady, lemma_set_or_current_steady, lemma_ice_set_steady};

}

pub broadcast proof fn lemma_thaw_or_say_steady(set: Seq<char>, otherwise: Seq<char>)
    ensures
        #[trigger] steady(thaw_or_say_program(set, otherwise)),
{
    broadcast use {group_requests_steady, lemma_thaw_set_steady};

}

pub broadcast proof fn lemma_thaw_steady(set: Option<Seq<char>>)
    ensures
        #[trigger] steady(thaw_program(set)),
{
    broadcast use {group_requests_steady, lemma_set_or_current_steady, lemma_thaw_or_say_steady};

}

pub proof fn lemma_ice_menu_steady()
    ensures
        steady(ice_menu_program()),
{
    broadcast use {group_requests_steady, lemma_select_steady, lemma_thaw_or_say_steady};

    lemma_list_iced_steady();
}

pub proof fn lemma_move_to_set_steady()
    ensures
        steady(move_to_set_program()),
{
    broadcast use {
        group_requests_steady,
        lemma_select_steady,
        lemma_touch_set_steady,
        lemma_set_pending_target_steady,
    };

    lemma_prune_sets_steady();
}

pub broadcast proof fn lemma_deliver_snapshot_steady(
    snapshot: Snapshot,
    set: Seq<char>,
    workspace: Seq<char>,
)
    ensures
        #[trigger] steady(deliver_snapshot_program(snapshot, set, workspace)),
{
    broadcast use {
        group_requests_steady,
        lemma_load_ice_steady,
        lemma_park_steady,
        lemma_move_all_steady,
    };

    lemma_list_iced_steady();
}

pub broadcast proof fn lemma_deliver_to_steady(set: Seq<char>, key: char)
    ensures
        #[trigger] steady(deliver_to_program(set, key)),
{
    broadcast use {group_requests_steady, lemma_deliver_snapshot_steady};

    lemma_tree_steady();
}

pub broadcast proof fn lemma_deliver_steady(key: char)
    ensures
        #[trigger] steady(deliver_program(key)),
{
    broadcast use {group_requests_steady, lemma_deliver_to_steady};

    lemma_get_pending_target_steady();
    lemma_clear_pending_target_steady();
}

pub broadcast proof fn lemma_pin_window_steady(
    con_id: i64,
    key: Option<char>,
    tree: Node,
    set: Seq<char>,
)
    ensures
        #[trigger] steady(pin_window_program(con_id, key, tree, set)),
{
    broadcast use {group_requests_steady, lemma_save_pins_steady, lemma_carry_pins_steady};

    lemma_pins_steady();
}

pub broadcast proof fn lemma_pin_steady(key: Option<char>)
    ensures
        #[trigger] steady(pin_program(key)),
{
    broadcast use {group_requests_steady, lemma_pin_window_steady};

    lemma_ensure_set_steady();
    lemma_tree_steady();
}

pub proof fn lemma_unpin_steady()
    ensures
        steady(unpin_program()),
{
    broadcast use {group_requests_steady, lemma_save_pins_steady};

    lemma_tree_steady();
    lemma_pins_steady();
}

pub proof fn lemma_current_steady()
    ensures
        steady(current_program()),
{
    broadcast use group_requests_steady;

    lemma_current_set_steady();
}

pub broadcast proof fn lemma_print_all_steady(lines: Seq<Seq<char>>)
    ensures
        #[trigger] steady(print_all_program(lines)),
    decreases lines.len(),
{
    broadcast use group_requests_steady;

    if lines.len() > 0 {
        lemma_print_all_steady(lines.drop_last());
    }
}

pub proof fn lemma_print_iced_steady()
    ensures
        steady(print_iced_program()),
{
    broadcast use {group_requests_steady, lemma_print_all_steady};

    lemma_list_iced_steady();
}

pub broadcast proof fn lemma_obey_steady(intent: Intent)
    ensures
        #[trigger] steady(obey_program(intent)),
{
    broadcast use {
        group_requests_steady,
        lemma_switch_steady,
        lemma_move_steady,
        lemma_change_set_steady,
        lemma_ice_steady,
        lemma_thaw_steady,
        lemma_deliver_steady,
        lemma_pin_steady,
    };

    lemma_set_menu_steady();
    lemma_ice_menu_steady();
    lemma_move_to_set_steady();
    lemma_unpin_steady();
    lemma_current_steady();
    lemma_print_iced_steady();
}

/// Every operation without parameters is steady.
pub proof fn lemma_fixed_operations_steady()
    ensures
        steady(assignments_program()),
        steady(list_sets_program()),
        steady(last_workspaces_program()),
        steady(list_iced_program()),
        steady(pins_program()),
        steady(get_pending_target_program()),
        steady(clear_pending_target_program()),
        steady(tree_program()),
        steady(workspaces_program()),
        steady(load_program()),
        steady(current_set_program()),
        steady(ensure_set_program()),
        steady(prune_sets_program()),
        steady(set_menu_program()),
        steady(ice_menu_program()),
        steady(move_to_set_program()),
        steady(unpin_program()),
        steady(current_program()),
        steady(print_iced_program()),
{
    lemma_assignments_steady();
    lemma_list_sets_steady();
    lemma_last_workspaces_steady();
    lemma_list_iced_steady();
    lemma_pins_steady();
    lemma_get_pending_target_steady();
    lemma_clear_pending_target_steady();
    lemma_tree_steady();
    lemma_workspaces_steady();
    lemma_load_steady();
    lemma_current_set_steady();
    lemma_ensure_set_steady();
    lemma_prune_sets_steady();
    lemma_set_menu_steady();
    lemma_ice_menu_steady();
    lemma_move_to_set_steady();
    lemma_unpin_steady();
    lemma_current_steady();
    lemma_print_iced_steady();
}

/// Every operation with parameters is steady.
pub broadcast group group_operations_steady {
    group_requests_steady,
    lemma_save_assignments_steady,
    lemma_save_sets_steady,
    lemma_touch_set_steady,
    lemma_save_last_workspaces_steady,
    lemma_last_workspace_steady,
    lemma_remember_workspace_steady,
    lemma_save_ice_steady,
    lemma_load_ice_steady,
    lemma_remove_ice_steady,
    lemma_save_pins_steady,
    lemma_set_pending_target_steady,
    lemma_select_steady,
    lemma_focused_set_steady,
    lemma_move_all_steady,
    lemma_restore_node_steady,
    lemma_restore_children_steady,
    lemma_restore_tree_steady,
    lemma_restore_all_steady,
    lemma_park_steady,
    lemma_ice_set_steady,
    lemma_thaw_set_steady,
    lemma_thaw_if_iced_steady,
    lemma_bring_steady,
    lemma_show_steady,
    lemma_claim_steady,
    lemma_swap_steady,
    lemma_exchange_steady,
    lemma_replace_steady,
    lemma_carry_out_steady,
    lemma_change_set_steady,
    lemma_place_pin_steady,
    lemma_place_pins_steady,
    lemma_carry_pins_steady,
    lemma_keep_sets_steady,
    lemma_switch_steady,
    lemma_move_steady,
    lemma_set_or_current_steady,
    lemma_ice_steady,
    lemma_thaw_or_say_steady,
    lemma_thaw_steady,
    lemma_deliver_snapshot_steady,
    lemma_deliver_to_steady,
    lemma_deliver_steady,
    lemma_pin_window_steady,
    lemma_pin_steady,
    lemma_print_all_steady,
    lemma_obey_steady,
}

} // verus!
