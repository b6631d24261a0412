//! The commands of the program and what each of them does.

use crate::change::{
    carry_pins, carry_pins_program, change_set, change_set_program, ensure_set, ensure_set_program,
    prune_sets, prune_sets_program,
};
use crate::dialogue::{
    bind, caught, did, give, order_program, perform, run_program, tell, Ask, Dialogue, Failure,
    Fault, Halt, Program, Request, Stop, Talk,
};
use crate::freeze::{
    ice_set, ice_set_program, move_all, move_all_program, park, park_program, thaw_set,
    thaw_set_program,
};
use crate::pins::{pinned_ids, pinned_windows, pins_without, unpinned_from, Pin};
use crate::screens::{current_set, current_set_program};
use crate::sets::{sets_without, without};
use crate::snapshot::{
    all_ids, collect_window_ids, contains_id, copy_snapshots, splice_snapshot, spliced, Snapshot,
    WorkspaceSnapshot,
};
use crate::state::{
    clear_pending_target, clear_pending_target_program, get_pending_target,
    get_pending_target_program, list_iced, list_iced_program, load_ice, load_ice_program, pins,
    pins_program, save_pins, save_pins_program, select_program, set_pending_target,
    set_pending_target_program, touch_set, touch_set_program, tree, tree_program, wofi_select,
};
use crate::sway::{
    default_mode, deliver_mode, delivered_notice, iced_notice, not_iced_notice, not_thawed_notice,
    pinned_notice, say_delivered, say_iced, say_not_iced, say_not_thawed, say_pinned, say_thawed,
    send_command, send_to, switch_command, switch_to, thawed_notice,
};
use crate::text::{contains_text, to_upper, upper, view_of, views};
use crate::tree::{
    find_focused_workspace, focused_window, focused_window_id, focused_workspace, snapshot_of,
    snapshot_workspace, Node,
};
use crate::workspace::{key_of, workspace_key, workspace_name, workspace_named};
use vstd::prelude::*;

verus! {

/// What the user asks for.
#[derive(Debug)]
pub enum Command {
    /// Switch to workspace <key> in the focused monitor's set
    Switch { key: char },
    /// Move focused window to workspace <key> in the focused monitor's set
    Move { key: char },
    /// Show a set on the focused monitor (swaps with another monitor showing it)
    Show { name: String },
    /// Pick the focused monitor's set via wofi
    SetMenu,
    /// Freeze a set, moving windows to parking
    Ice { set: Option<String> },
    /// Restore a frozen set
    Thaw { set: Option<String> },
    /// Pick frozen set to thaw via wofi
    IceMenu,
    /// Pick target set for cross-set move (then use deliver)
    MoveToSet,
    /// Deliver the windows of the focused workspace to <key> in pending target set
    Deliver { key: char },
    /// Pin the focused window to workspace <key> (default: the one it is in)
    /// of whichever set is shown
    Pin { key: Option<char> },
    /// Unpin the focused window
    Unpin,
    /// Print the focused monitor's set
    Current,
    /// List frozen sets
    ListIced,
}

/// A `Command` by its contents.
pub enum Intent {
    Switch { key: char },
    Move { key: char },
    Show { name: Seq<char> },
    SetMenu,
    Ice { set: Option<Seq<char>> },
    Thaw { set: Option<Seq<char>> },
    IceMenu,
    MoveToSet,
    Deliver { key: char },
    Pin { key: Option<char> },
    Unpin,
    Current,
    ListIced,
}

impl View for Command {
    type V = Intent;

    open spec fn view(&self) -> Intent {
        match self {
            Command::Switch { key } => Intent::Switch { key: *key },
            Command::Move { key } => Intent::Move { key: *key },
            Command::Show { name } => Intent::Show { name: name@ },
            Command::SetMenu => Intent::SetMenu,
            Command::Ice { set } => Intent::Ice { set: view_of(*set) },
            Command::Thaw { set } => Intent::Thaw { set: view_of(*set) },
            Command::IceMenu => Intent::IceMenu,
            Command::MoveToSet => Intent::MoveToSet,
            Command::Deliver { key } => Intent::Deliver { key: *key },
            Command::Pin { key } => Intent::Pin { key: *key },
            Command::Unpin => Intent::Unpin,
            Command::Current => Intent::Current,
            Command::ListIced => Intent::ListIced,
        }
    }
}

/// Switches to a workspace of the focused monitor's set.
pub open spec fn switch_program(key: char) -> Program<()> {
    bind(
        ensure_set_program(),
        |set: Seq<char>| run_program(switch_command(workspace_named(key, set))),
    )
}

/// Moves the focused window to a workspace of the focused monitor's set.
pub open spec fn move_program(key: char) -> Program<()> {
    bind(
        ensure_set_program(),
        |set: Seq<char>| run_program(send_command(workspace_named(key, set))),
    )
}

/// Lets the user choose the set to show, among those the monitor does not.
pub open spec fn set_menu_program() -> Program<()> {
    bind(
        ensure_set_program(),
        |current: Seq<char>|
            bind(
                prune_sets_program(),
                |sets: Seq<Seq<char>>|
                    bind(
                        select_program("Space set"@, without(sets, current)),
                        |choice: Option<Seq<char>>|
                            match choice {
                                Some(set) => change_set_program(set),
                                None => give(Ok(())),
                            },
                    ),
            ),
    )
}

/// The set named, or the one that the focused monitor shows.
pub open spec fn set_or_current_program(set: Option<Seq<char>>) -> Program<Seq<char>> {
    match set {
        Some(set) => give(Ok(set)),
        None => current_set_program(),
    }
}

/// Freezes a set and says so.
pub open spec fn ice_program(set: Option<Seq<char>>) -> Program<()> {
    bind(
        set_or_current_program(set),
        |set: Seq<char>|
            bind(
                ice_set_program(set),
                |windows: nat| tell(Ask::Notify(iced_notice(set, windows))),
            ),
    )
}

/// Thaws a set and says so, or says otherwise where that fails.
pub open spec fn thaw_or_say_program(set: Seq<char>, otherwise: Seq<char>) -> Program<()> {
    bind(
        caught(thaw_set_program(set)),
        |counts: Option<(nat, nat)>|
            match counts {
                Some((restored, total)) => tell(
                    Ask::Notify(thawed_notice(set, restored, total)),
                ),
                None => tell(Ask::Notify(otherwise)),
            },
    )
}

/// Thaws a set and says so.
pub open spec fn thaw_program(set: Option<Seq<char>>) -> Program<()> {
    bind(
        set_or_current_program(set),
        |set: Seq<char>| thaw_or_say_program(set, not_iced_notice(set)),
    )
}

/// Lets the user choose the frozen set to thaw.
pub open spec fn ice_menu_program() -> Program<()> {
    bind(
        list_iced_program(),
        |iced: Seq<Seq<char>>|
            if iced.len() == 0 {
                tell(Ask::Notify("No iced sets"@))
            } else {
                bind(
                    select_program("Thaw set"@, iced),
                    |choice: Option<Seq<char>>|
                        match choice {
                            Some(set) => thaw_or_say_program(set, not_thawed_notice(set)),
                            None => give(Ok(())),
                        },
                )
            },
    )
}

/// Lets the user choose the set to deliver windows to.
pub open spec fn move_to_set_program() -> Program<()> {
    bind(
        prune_sets_program(),
        |sets: Seq<Seq<char>>|
            bind(
                select_program("Move to set"@, sets),
                |choice: Option<Seq<char>>|
                    match choice {
                        Some(set) => bind(
                            touch_set_program(set),
                            |u: ()|
                                bind(
                                    set_pending_target_program(set),
                                    |u: ()| order_program(deliver_mode()),
                                ),
                        ),
                        None => give(Ok(())),
                    },
            ),
    )
}

/// The snapshot of the focused workspace, where it holds windows.
pub open spec fn focused_snapshot(tree: Node) -> Option<Snapshot> {
    match focused_workspace(tree) {
        Some(node) => snapshot_of(node),
        None => None,
    }
}

/// Moves the windows of a snapshot to a workspace of a set. Where the set is
/// frozen, they are added to what is stored of it and parked.
pub open spec fn deliver_snapshot_program(
    snapshot: Snapshot,
    set: Seq<char>,
    workspace: Seq<char>,
) -> Program<()> {
    bind(
        list_iced_program(),
        |iced: Seq<Seq<char>>|
            {
                let is_frozen = iced.contains(set);
                let ids = all_ids(snapshot.tree);
                bind(
                    if is_frozen {
                        bind(
                            load_ice_program(set),
                            |stored: Seq<Snapshot>|
                                park_program(
                                    set,
                                    spliced(stored, workspace, snapshot.layout, snapshot.tree),
                                    ids,
                                ),
                        )
                    } else {
                        move_all_program(ids, workspace)
                    },
                    |u: ()|
                        tell(Ask::Notify(delivered_notice(ids.len(), workspace, is_frozen))),
                )
            },
    )
}

/// Moves the windows of the focused workspace to a workspace of a set.
pub open spec fn deliver_to_program(set: Seq<char>, key: char) -> Program<()> {
    bind(
        tree_program(),
        |tree: Node|
            match focused_snapshot(tree) {
                Some(snapshot) => deliver_snapshot_program(
                    snapshot,
                    set,
                    workspace_named(key, set),
                ),
                None => give(Ok(())),
            },
    )
}

/// Moves the windows of the focused workspace to the set chosen for them.
pub open spec fn deliver_program(key: char) -> Program<()> {
    bind(
        get_pending_target_program(),
        |target: Option<Seq<char>>|
            match target {
                Some(set) => bind(
                    deliver_to_program(set, key),
                    |u: ()|
                        bind(
                            clear_pending_target_program(),
                            |u: ()| order_program(default_mode()),
                        ),
                ),
                None => bind(
                    tell(Ask::Notify("No pending move target"@)),
                    |u: ()| order_program(default_mode()),
                ),
            },
    )
}

/// The key to pin the focused window to: the one given, or that of the
/// focused workspace.
pub open spec fn pin_key(key: Option<char>, tree: Node, set: Seq<char>) -> Option<char> {
    match key {
        Some(key) => Some(key),
        None => match focused_workspace(tree) {
            Some(node) => match node.name {
                Some(name) => key_of(name@, set),
                None => None,
            },
            None => None,
        },
    }
}

/// Pins a window to a key and carries it there, or, without a key, releases it
/// if it is pinned.
pub open spec fn pin_window_program(
    con_id: i64,
    key: Option<char>,
    tree: Node,
    set: Seq<char>,
) -> Program<()> {
    bind(
        pins_program(),
        |pins: Seq<Pin>|
            if key is None && pinned_windows(pins).contains(con_id) {
                bind(
                    save_pins_program(unpinned_from(pins, con_id)),
                    |u: ()| tell(Ask::Notify("Unpinned"@)),
                )
            } else {
                match pin_key(key, tree, set) {
                    Some(key) => bind(
                        save_pins_program(unpinned_from(pins, con_id).push(Pin { con_id, key })),
                        |u: ()|
                            bind(
                                carry_pins_program(set),
                                |u: ()| tell(Ask::Notify(pinned_notice(upper(key)))),
                            ),
                    ),
                    None => give(Err(Halt::Failed(Fault::NoKey))),
                }
            },
    )
}

/// Pins the focused window.
pub open spec fn pin_program(key: Option<char>) -> Program<()> {
    bind(
        ensure_set_program(),
        |set: Seq<char>|
            bind(
                tree_program(),
                |tree: Node|
                    match focused_window(tree) {
                        Some(con_id) => pin_window_program(con_id, key, tree, set),
                        None => give(Err(Halt::Failed(Fault::NoWindowToPin))),
                    },
            ),
    )
}

/// Unpins the focused window.
pub open spec fn unpin_program() -> Program<()> {
    bind(
        tree_program(),
        |tree: Node|
            match focused_window(tree) {
                Some(con_id) => bind(
                    pins_program(),
                    |pins: Seq<Pin>| save_pins_program(unpinned_from(pins, con_id)),
                ),
                None => give(Err(Halt::Failed(Fault::NoWindowToUnpin))),
            },
    )
}

/// Prints the focused monitor's set.
pub open spec fn current_program() -> Program<()> {
    bind(current_set_program(), |set: Seq<char>| perform(Ask::Print(set)))
}

/// Prints lines one after another.
pub open spec fn print_all_program(lines: Seq<Seq<char>>) -> Program<()>
    decreases lines.len(),
{
    if lines.len() == 0 {
        give(Ok(()))
    } else {
        bind(print_all_program(lines.drop_last()), |u: ()| perform(Ask::Print(lines.last())))
    }
}

/// Prints the frozen sets.
pub open spec fn print_iced_program() -> Program<()> {
    bind(list_iced_program(), |sets: Seq<Seq<char>>| print_all_program(sets))
}

/// Carries out a command.
pub open spec fn obey_program(intent: Intent) -> Program<()> {
    match intent {
        Intent::Switch { key } => switch_program(key),
        Intent::Move { key } => move_program(key),
        Intent::Show { name } => change_set_program(name),
        Intent::SetMenu => set_menu_program(),
        Intent::Ice { set } => ice_program(set),
        Intent::Thaw { set } => thaw_program(set),
        Intent::IceMenu => ice_menu_program(),
        Intent::MoveToSet => move_to_set_program(),
        Intent::Deliver { key } => deliver_program(key),
        Intent::Pin { key } => pin_program(key),
        Intent::Unpin => unpin_program(),
        Intent::Current => current_program(),
        Intent::ListIced => print_iced_program(),
    }
}

/// Lets the user choose the set to show.
fn set_menu(talk: &mut Talk) -> (r: Result<(), Stop>)
    ensures
        did(set_menu_program(), old(talk)@, final(talk)@, r, |u: ()| u),
{
    let current = ensure_set(talk)?;
    let sets = prune_sets(talk)?;
    // Drop the set already on this monitor: picking it is a no-op, and
    // leaving it out puts the set left last on top, where wofi's
    // preselection turns the picker into a two-key toggle.
    let offered = sets_without(&sets, current.as_str());
    match wofi_select(talk, "Space set", &offered)? {
        Some(set) => change_set(talk, set.as_str()),
        None => Ok(()),
    }
}

/// The set named, or the one that the focused monitor shows.
fn set_or_current(talk: &mut Talk, set: &Option<String>) -> (r: Result<String, Stop>)
    ensures
        did(
            set_or_current_program(view_of(*set)),
            old(talk)@,
            final(talk)@,
            r,
            |set: String| set@,
        ),
{
    match set {
        Some(set) => Ok(set.clone()),
        None => current_set(talk),
    }
}

/// Freezes a set and says so.
fn ice(talk: &mut Talk, set: &Option<String>) -> (r: Result<(), Stop>)
    ensures
        did(ice_program(view_of(*set)), old(talk)@, final(talk)@, r, |u: ()| u),
{
    let set = set_or_current(talk, set)?;
    let windows = ice_set(talk, set.as_str())?;
    talk.tell(Request::Notify(say_iced(set.as_str(), windows)))
}

/// Thaws a set and says so, or says otherwise where that fails.
fn thaw_or_say(talk: &mut Talk, set: &str, otherwise: String) -> (r: Result<(), Stop>)
    ensures
        did(thaw_or_say_program(set@, otherwise@), old(talk)@, final(talk)@, r, |u: ()| u),
{
    match thaw_set(talk, set) {
        Ok((restored, total)) => talk.tell(Request::Notify(say_thawed(set, restored, total))),
        Err(Stop::Failed(_)) => talk.tell(Request::Notify(otherwise)),
        Err(Stop::Waiting) => Err(Stop::Waiting),
    }
}

/// Thaws a set and says so.
fn thaw(talk: &mut Talk, set: &Option<String>) -> (r: Result<(), Stop>)
    ensures
        did(thaw_program(view_of(*set)), old(talk)@, final(talk)@, r, |u: ()| u),
{
    let set = set_or_current(talk, set)?;
    thaw_or_say(talk, set.as_str(), say_not_iced(set.as_str()))
}

/// Lets the user choose the frozen set to thaw.
fn ice_menu(talk: &mut Talk) -> (r: Result<(), Stop>)
    ensures
        did(ice_menu_program(), old(talk)@, final(talk)@, r, |u: ()| u),
{
    let iced = list_iced(talk)?;
    assert(views(iced@).len() == iced@.len());
    if iced.len() == 0 {
        return talk.tell(Request::Notify("No iced sets".to_owned()));
    }
    match wofi_select(talk, "Thaw set", &iced)? {
        Some(set) => thaw_or_say(talk, set.as_str(), say_not_thawed(set.as_str())),
        None => Ok(()),
    }
}

/// Lets the user choose the set to deliver windows to.
fn move_to_set(talk: &mut Talk) -> (r: Result<(), Stop>)
    ensures
        did(move_to_set_program(), old(talk)@, final(talk)@, r, |u: ()| u),
{
    let sets = prune_sets(talk)?;
    match wofi_select(talk, "Move to set", &sets)? {
        Some(set) => {
            touch_set(talk, set.as_str())?;
            set_pending_target(talk, set.as_str())?;
            talk.order("mode deliver".to_owned())
        },
        None => Ok(()),
    }
}

/// Moves the windows of a snapshot to a workspace of a set.
fn deliver_snapshot(talk: &mut Talk, snapshot: WorkspaceSnapshot, set: &str, workspace: &str) -> (r:
    Result<(), Stop>)
    ensures
        did(
            deliver_snapshot_program(snapshot@, set@, workspace@),
            old(talk)@,
            final(talk)@,
            r,
            |u: ()| u,
        ),
{
    let iced = list_iced(talk)?;
    let is_frozen = contains_text(&iced, set);
    let WorkspaceSnapshot { name: _, layout, tree } = snapshot;
    let ids = collect_window_ids(&tree);
    if is_frozen {
        // A frozen target has no live workspaces to move into: park the
        // windows and splice them into its snapshot, so they come back with
        // the set.
        let mut stored = copy_snapshots(load_ice(talk, set)?);
        splice_snapshot(&mut stored, workspace, layout.as_str(), tree);
        park(talk, set, stored, &ids)?;
    } else {
        move_all(talk, &ids, workspace)?;
    }
    talk.tell(Request::Notify(say_delivered(ids.len(), workspace, is_frozen)))
}

/// Moves the windows of the focused workspace to a workspace of a set.
fn deliver_to(talk: &mut Talk, set: &str, key: char) -> (r: Result<(), Stop>)
    ensures
        did(deliver_to_program(set@, key), old(talk)@, final(talk)@, r, |u: ()| u),
{
    let tree = tree(talk)?;
    if let Some(node) = find_focused_workspace(tree) {
        if let Some(snapshot) = snapshot_workspace(node) {
            let workspace = workspace_name(key, set);
            return deliver_snapshot(talk, snapshot, set, workspace.as_str());
        }
    }
    Ok(())
}

/// Moves the windows of the focused workspace to the set chosen for them.
fn deliver(talk: &mut Talk, key: char) -> (r: Result<(), Stop>)
    ensures
        did(deliver_program(key), old(talk)@, final(talk)@, r, |u: ()| u),
{
    match get_pending_target(talk)? {
        Some(set) => {
            deliver_to(talk, set.as_str(), key)?;
            clear_pending_target(talk)?;
        },
        None => {
            talk.tell(Request::Notify("No pending move target".to_owned()))?;
        },
    }
    talk.order("mode default".to_owned())
}

/// The key to pin the focused window to.
fn key_to_pin(key: Option<char>, tree: &Node, set: &str) -> (r: Option<char>)
    ensures
        r == pin_key(key, *tree, set@),
{
    if key.is_some() {
        return key;
    }
    if let Some(node) = find_focused_workspace(tree) {
        if let Some(name) = &node.name {
            return workspace_key(name.as_str(), set);
        }
    }
    None
}

/// Pins a window, or releases it.
fn pin_window(
    talk: &mut Talk,
    con_id: i64,
    key: Option<char>,
    tree: &Node,
    set: &str,
) -> (r: Result<(), Stop>)
    ensures
        did(
            pin_window_program(con_id, key, *tree, set@),
            old(talk)@,
            final(talk)@,
            r,
            |u: ()| u,
        ),
{
    let pins = pins(talk)?;
    let pinned = pinned_ids(&pins);
    let mut rest = pins_without(&pins, con_id);
    // Bare `pin` toggles: with no key to move the window to, a second press on
    // a pinned window can only mean release it.
    if key.is_none() && contains_id(&pinned, con_id) {
        save_pins(talk, rest)?;
        return talk.tell(Request::Notify("Unpinned".to_owned()));
    }
    match key_to_pin(key, tree, set) {
        Some(key) => {
            rest.push(Pin { con_id, key });
            save_pins(talk, rest)?;
            carry_pins(talk, set)?;
            talk.tell(Request::Notify(say_pinned(to_upper(key))))
        },
        None => Err(Stop::Failed(Failure::NoKey)),
    }
}

/// Pins the focused window.
fn pin(talk: &mut Talk, key: Option<char>) -> (r: Result<(), Stop>)
    ensures
        did(pin_program(key), old(talk)@, final(talk)@, r, |u: ()| u),
{
    let set = ensure_set(talk)?;
    let tree = tree(talk)?;
    match focused_window_id(tree) {
        Some(con_id) => pin_window(talk, con_id, key, tree, set.as_str()),
        None => Err(Stop::Failed(Failure::NoWindowToPin)),
    }
}

/// Unpins the focused window.
fn unpin(talk: &mut Talk) -> (r: Result<(), Stop>)
    ensures
        did(unpin_program(), old(talk)@, final(talk)@, r, |u: ()| u),
{
    let tree = tree(talk)?;
    match focused_window_id(tree) {
        Some(con_id) => {
            let pins = pins(talk)?;
            save_pins(talk, pins_without(&pins, con_id))
        },
        None => Err(Stop::Failed(Failure::NoWindowToUnpin)),
    }
}

/// Prints the frozen sets.
fn print_iced(talk: &mut Talk) -> (r: Result<(), Stop>)
    ensures
        did(print_iced_program(), old(talk)@, final(talk)@, r, |u: ()| u),
{
    let sets = list_iced(talk)?;
    let ghost start = talk@;
    let ghost all = views(sets@);
    let ghost first = old(talk)@;
    let mut i: usize = 0;
    while i < sets.len()
        invariant
            i <= sets@.len(),
            all == views(sets@),
            first == old(talk)@,
            print_iced_program()(first) == print_all_program(all)(start),
            print_all_program(all.take(i as int))(start) == (talk@, Ok::<(), Halt>(())),
        decreases sets.len() - i,
    {
        assert(all.take(i + 1).drop_last() == all.take(i as int));
        match talk.perform(Request::Print(sets[i].clone())) {
            Ok(()) => {},
            Err(stop) => {
                proof {
                    lemma_print_all_stops(all, i + 1, start);
                }
                return Err(stop);
            },
        }
        i += 1;
    }
    assert(all.take(i as int) == all);
    Ok(())
}

proof fn lemma_print_all_stops(lines: Seq<Seq<char>>, n: int, d: Dialogue)
    requires
        0 <= n <= lines.len(),
        print_all_program(lines.take(n))(d).1 is Err,
    ensures
        print_all_program(lines)(d) == print_all_program(lines.take(n))(d),
    decreases lines.len(),
{
    if n == lines.len() {
        assert(lines.take(n) == lines);
    } else {
        assert(lines.drop_last().take(n) == lines.take(n));
        lemma_print_all_stops(lines.drop_last(), n, d);
    }
}

/// Carries out a command.
pub fn obey(talk: &mut Talk, command: &Command) -> (r: Result<(), Stop>)
    ensures
        did(obey_program(command@), old(talk)@, final(talk)@, r, |u: ()| u),
{
    match command {
        Command::Switch { key } => {
            let set = ensure_set(talk)?;
            talk.run(switch_to(workspace_name(*key, set.as_str()).as_str()))
        },
        Command::Move { key } => {
            let set = ensure_set(talk)?;
            talk.run(send_to(workspace_name(*key, set.as_str()).as_str()))
        },
        Command::Show { name } => change_set(talk, name.as_str()),
        Command::SetMenu => set_menu(talk),
        Command::Ice { set } => ice(talk, set),
        Command::Thaw { set } => thaw(talk, set),
        Command::IceMenu => ice_menu(talk),
        Command::MoveToSet => move_to_set(talk),
        Command::Deliver { key } => deliver(talk, *key),
        Command::Pin { key } => pin(talk, *key),
        Command::Unpin => unpin(talk),
        Command::Current => {
            let set = current_set(talk)?;
            talk.perform(Request::Print(set))
        },
        Command::ListIced => print_iced(talk),
    }
}

} // verus!
