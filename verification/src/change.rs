//! Changing the set that a monitor shows.

use crate::assignments::{assigned, planned, Change, Planned};
use crate::dialogue::{
    bind, did, give, run_all_program, run_program, Fault, Halt, Program, Stop, Talk, Workspace,
};
use crate::freeze::{ice_set, ice_set_program, thaw_set, thaw_set_program};
use crate::pins::{live_pins, retain_live_pins, Pin};
use crate::screens::{
    focused_monitor, focused_set_program, ids_of, load_program, monitor_by_id, shown_sets, Display,
    Monitor, Screen, Screens,
};
use crate::sets::{live_sets, retain_live};
use crate::state::{
    last_workspace, last_workspace_program, last_workspaces, last_workspaces_program, list_iced,
    list_iced_program, list_sets, list_sets_program, pins, pins_program, remember_workspace,
    remember_workspace_program, save_assignments, save_assignments_program, save_last_workspaces,
    save_last_workspaces_program, save_pins, save_pins_program, save_sets, save_sets_program,
    touch_set, touch_set_program, tree, tree_program, workspaces, workspaces_program,
};
use crate::string_map::{only_keys, TextMap};
use crate::sway::{
    bring_command, bring_to, carry_command, carry_to, show_command, show_on, swap_command,
    swap_with, switch_command, switch_to,
};
use crate::text::{borrowed, contains_text, same_text, view_of, views};
use crate::tree::{
    all_window_ids, find_workspace, first_tiled_window, live_ids, named_workspace, tiled_window,
    Node,
};
use crate::workspace::{
    belongs, visible_or_home, visible_or_home_named, workspace_belongs_to_set, workspace_name,
    workspace_named,
};
use vstd::prelude::*;

verus! {

/// The commands that move the workspaces of a set onto an output, from the
/// outputs they are on.
pub open spec fn bring_commands(
    workspaces: Seq<Workspace>,
    set: Seq<char>,
    output: Seq<char>,
) -> Seq<Seq<char>>
    decreases workspaces.len(),
{
    if workspaces.len() == 0 {
        seq![]
    } else {
        let front = bring_commands(workspaces.drop_last(), set, output);
        let last = workspaces.last();
        if belongs(last.name@, set) && last.output@ != output {
            front.push(bring_command(last.name@, output))
        } else {
            front
        }
    }
}

/// Thaws a set if it is frozen; the result is whether it was.
pub open spec fn thaw_if_iced_program(set: Seq<char>) -> Program<bool> {
    bind(
        list_iced_program(),
        |iced: Seq<Seq<char>>|
            if iced.contains(set) {
                bind(thaw_set_program(set), |n: (nat, nat)| give(Ok(true)))
            } else {
                give(Ok(false))
            },
    )
}

/// Thaws a set if it is frozen and moves its workspaces onto a monitor; the
/// result is whether anything happened.
pub open spec fn bring_program(set: Seq<char>, monitor: Screen) -> Program<bool> {
    bind(
        thaw_if_iced_program(set),
        |thawed: bool|
            bind(
                workspaces_program(),
                |workspaces: Seq<Workspace>|
                    {
                        let commands = bring_commands(workspaces, set, monitor.name);
                        bind(
                            run_all_program(commands),
                            |u: ()| give(Ok(thawed || commands.len() > 0)),
                        )
                    },
            ),
    )
}

/// Shows a workspace on a monitor.
pub open spec fn show_program(monitor: Screen, workspace: Seq<char>) -> Program<()> {
    run_program(show_command(monitor.name, workspace))
}

/// Claims a set for a monitor that has none: stores the assignment, records
/// the set as used and brings it there, and returns to the workspace that was
/// visible if that moved the focus.
pub open spec fn claim_program(display: Display, here: Screen) -> Program<Seq<char>> {
    bind(
        focused_set_program(display),
        |set: Seq<char>|
            bind(
                save_assignments_program(assigned(display.shown, here.id, set)),
                |u: ()|
                    bind(
                        touch_set_program(set),
                        |u: ()|
                            bind(
                                bring_program(set, here),
                                |changed: bool|
                                    bind(
                                        if changed && here.visible is Some {
                                            run_program(switch_command(here.visible->0))
                                        } else {
                                            give(Ok(()))
                                        },
                                        |u: ()| give(Ok(set)),
                                    ),
                            ),
                    ),
            ),
    )
}

/// The focused monitor's set, claiming the default for a monitor seen for the
/// first time.
pub open spec fn ensure_set_program() -> Program<Seq<char>> {
    bind(
        load_program(),
        |display: Display|
            match focused_monitor(display.monitors) {
                Some(here) => match display.shown.get(here.id) {
                    Some(set) => give(Ok(set)),
                    None => claim_program(display, here),
                },
                None => give(Err(Halt::Failed(Fault::NoFocusedOutput))),
            },
    )
}

/// Exchanges the sets of two monitors: stores the assignments, records where
/// both sets were left, brings each set to its new monitor and shows it there.
pub open spec fn swap_program(
    display: Display,
    here: Screen,
    monitor: Seq<char>,
    old: Seq<char>,
    set: Seq<char>,
) -> Program<()> {
    match monitor_by_id(display.monitors, monitor) {
        Some(there) => bind(
            save_assignments_program(
                assigned(assigned(display.shown, here.id, set), there.id, old),
            ),
            |u: ()|
                bind(
                    remember_workspace_program(old, here.visible),
                    |u: ()|
                        bind(
                            remember_workspace_program(set, there.visible),
                            |u: ()|
                                bind(
                                    last_workspace_program(old),
                                    |leaving: Option<Seq<char>>|
                                        bind(
                                            last_workspace_program(set),
                                            |arriving: Option<Seq<char>>|
                                                exchange_program(
                                                    here,
                                                    there,
                                                    old,
                                                    set,
                                                    leaving,
                                                    arriving,
                                                ),
                                        ),
                                ),
                        ),
                ),
        ),
        None => give(Err(Halt::Failed(Fault::NotConnected(monitor)))),
    }
}

/// Brings two sets to the monitors that exchange them and shows them there,
/// the focused monitor last.
pub open spec fn exchange_program(
    here: Screen,
    there: Screen,
    old: Seq<char>,
    set: Seq<char>,
    leaving: Option<Seq<char>>,
    arriving: Option<Seq<char>>,
) -> Program<()> {
    bind(
        bring_program(set, here),
        |b: bool|
            bind(
                bring_program(old, there),
                |b: bool|
                    bind(
                        show_program(there, visible_or_home_named(here.visible, leaving, old)),
                        |u: ()|
                            show_program(here, visible_or_home_named(there.visible, arriving, set)),
                    ),
            ),
    )
}

/// Puts a set in the place of another: records where the old one was left and
/// freezes it, stores the assignment, brings the new one and shows it.
pub open spec fn replace_program(
    display: Display,
    here: Screen,
    old: Seq<char>,
    set: Seq<char>,
) -> Program<()> {
    bind(
        remember_workspace_program(old, here.visible),
        |u: ()|
            bind(
                ice_set_program(old),
                |n: nat|
                    bind(
                        save_assignments_program(assigned(display.shown, here.id, set)),
                        |u: ()|
                            bind(
                                last_workspace_program(set),
                                |arriving: Option<Seq<char>>|
                                    bind(
                                        bring_program(set, here),
                                        |b: bool|
                                            show_program(
                                                here,
                                                visible_or_home_named(here.visible, arriving, set),
                                            ),
                                    ),
                            ),
                    ),
            ),
    )
}

/// Carries out a plan.
pub open spec fn carry_out_program(
    display: Display,
    here: Screen,
    set: Seq<char>,
    plan: Planned,
) -> Program<()> {
    match plan {
        Planned::Unchanged => give(Ok(())),
        Planned::Swap { monitor, old } => swap_program(display, here, monitor, old, set),
        Planned::Replace { old } => replace_program(display, here, old, set),
    }
}

/// Shows a set on the focused monitor.
pub open spec fn change_set_program(set: Seq<char>) -> Program<()> {
    bind(
        ensure_set_program(),
        |current: Seq<char>|
            bind(
                load_program(),
                |display: Display|
                    match focused_monitor(display.monitors) {
                        Some(here) => bind(
                            touch_set_program(set),
                            |u: ()|
                                bind(
                                    carry_out_program(
                                        display,
                                        here,
                                        set,
                                        planned(
                                            display.shown,
                                            here.id,
                                            current,
                                            set,
                                            ids_of(display.monitors),
                                        ),
                                    ),
                                    |u: ()| carry_pins_program(set),
                                ),
                        ),
                        None => give(Err(Halt::Failed(Fault::NoFocusedOutput))),
                    },
            ),
    )
}

/// The window that a pinned window displaces: the one in the top-left slot of
/// the workspace, unless it is the pinned window itself.
pub open spec fn resident(tree: Node, pin: Pin, workspace: Seq<char>) -> Option<i64> {
    match named_workspace(tree, workspace) {
        Some(node) => match tiled_window(node) {
            Some(id) => if id != pin.con_id {
                Some(id)
            } else {
                None
            },
            None => None,
        },
        None => None,
    }
}

/// Moves one pinned window into a set and swaps it into the top-left slot.
pub open spec fn place_pin_program(pin: Pin, set: Seq<char>) -> Program<()> {
    let workspace = workspace_named(pin.key, set);
    bind(
        tree_program(),
        |tree: Node|
            bind(
                run_program(carry_command(pin.con_id, workspace)),
                |u: ()|
                    match resident(tree, pin, workspace) {
                        Some(id) => run_program(swap_command(pin.con_id, id)),
                        None => give(Ok(())),
                    },
            ),
    )
}

/// Places pinned windows, the last of them first.
pub open spec fn place_pins_program(pins: Seq<Pin>, set: Seq<char>) -> Program<()>
    decreases pins.len(),
{
    if pins.len() == 0 {
        give(Ok(()))
    } else {
        bind(
            place_pin_program(pins.last(), set),
            |u: ()| place_pins_program(pins.drop_last(), set),
        )
    }
}

/// Carries every pinned window to its key in a set, and drops the pins whose
/// window has closed.
pub open spec fn carry_pins_program(set: Seq<char>) -> Program<()> {
    bind(
        pins_program(),
        |pins: Seq<Pin>|
            bind(
                tree_program(),
                |tree: Node|
                    {
                        let kept = live_pins(pins, live_ids(tree));
                        bind(
                            if kept.len() != pins.len() {
                                save_pins_program(kept)
                            } else {
                                give(Ok(()))
                            },
                            |u: ()| place_pins_program(kept, set),
                        )
                    },
            ),
    )
}

/// The names of workspaces.
pub open spec fn names_of(workspaces: Seq<Workspace>) -> Seq<Seq<char>> {
    workspaces.map_values(|w: Workspace| w.name@)
}

/// The sets to offer: drops those nothing is left in from the known sets, and
/// then from the record of where sets were left.
pub open spec fn prune_sets_program() -> Program<Seq<Seq<char>>> {
    bind(
        load_program(),
        |display: Display|
            bind(
                workspaces_program(),
                |workspaces: Seq<Workspace>|
                    bind(
                        list_sets_program(),
                        |known: Seq<Seq<char>>|
                            bind(
                                list_iced_program(),
                                |iced: Seq<Seq<char>>|
                                    keep_sets_program(
                                        live_sets(
                                            known,
                                            names_of(workspaces),
                                            iced,
                                            shown_sets(display.monitors, display.shown),
                                        ),
                                    ),
                            ),
                    ),
            ),
    )
}

/// Stores the sets that are left, and keeps the record of where they were
/// left alone.
pub open spec fn keep_sets_program(sets: Seq<Seq<char>>) -> Program<Seq<Seq<char>>> {
    bind(
        save_sets_program(sets),
        |u: ()|
            bind(
                last_workspaces_program(),
                |last: TextMap|
                    bind(
                        save_last_workspaces_program(only_keys(last, sets)),
                        |u: ()| give(Ok(sets)),
                    ),
            ),
    )
}

/// The commands that move the workspaces of a set onto an output.
pub fn bring_moves(workspaces: &Vec<Workspace>, set: &str, output: &str) -> (r: Vec<String>)
    ensures
        views(r@) == bring_commands(workspaces@, set@, output@),
{
    let mut commands: Vec<String> = Vec::new();
    let mut i: usize = 0;
    while i < workspaces.len()
        invariant
            i <= workspaces@.len(),
            views(commands@) == bring_commands(workspaces@.take(i as int), set@, output@),
        decreases workspaces.len() - i,
    {
        assert(workspaces@.take(i + 1).drop_last() == workspaces@.take(i as int));
        let ghost before = views(commands@);
        let workspace = &workspaces[i];
        if workspace_belongs_to_set(workspace.name.as_str(), set) && !same_text(
            workspace.output.as_str(),
            output,
        ) {
            let command = bring_to(workspace.name.as_str(), output);
            commands.push(command);
            assert(views(commands@) == before.push(command@));
        }
        i += 1;
    }
    assert(workspaces@.take(i as int) == workspaces@);
    commands
}

/// Thaws a set if it is frozen.
fn thaw_if_iced(talk: &mut Talk, set: &str) -> (r: Result<bool, Stop>)
    ensures
        did(thaw_if_iced_program(set@), old(talk)@, final(talk)@, r, |b: bool| b),
{
    let iced = list_iced(talk)?;
    if contains_text(&iced, set) {
        let _counts = thaw_set(talk, set)?;
        Ok(true)
    } else {
        Ok(false)
    }
}

/// Thaw `set` if it is iced and move its workspaces onto `monitor`. Moves
/// focus; returns whether anything happened.
pub fn bring(talk: &mut Talk, set: &str, monitor: &Monitor) -> (r: Result<bool, Stop>)
    ensures
        did(bring_program(set@, monitor@), old(talk)@, final(talk)@, r, |b: bool| b),
{
    let thawed = thaw_if_iced(talk, set)?;
    let workspaces = workspaces(talk)?;
    let commands = bring_moves(workspaces, set, monitor.name.as_str());
    talk.run_all(&commands)?;
    Ok(thawed || commands.len() > 0)
}

/// Shows a workspace on a monitor.
pub fn show(talk: &mut Talk, monitor: &Monitor, workspace: &str) -> (r: Result<(), Stop>)
    ensures
        did(show_program(monitor@, workspace@), old(talk)@, final(talk)@, r, |u: ()| u),
{
    talk.run(show_on(monitor.name.as_str(), workspace))
}

/// Claims a set for a monitor that has none.
fn claim(talk: &mut Talk, screens: &Screens, here: &Monitor) -> (r: Result<String, Stop>)
    ensures
        did(claim_program(screens@, here@), old(talk)@, final(talk)@, r, |set: String| set@),
{
    let set = screens.focused_set(talk)?;
    let mut assignments = screens.assignments.clone();
    assignments.assign(here.id.as_str(), set.as_str());
    save_assignments(talk, &assignments)?;
    touch_set(talk, set.as_str())?;
    if bring(talk, set.as_str(), here)? {
        if let Some(visible) = &here.visible {
            talk.run(switch_to(visible.as_str()))?;
        }
    }
    Ok(set)
}

/// The focused monitor's set, claiming the default for a monitor seen for
/// the first time. Leaves focus where it was.
pub fn ensure_set(talk: &mut Talk) -> (r: Result<String, Stop>)
    ensures
        did(ensure_set_program(), old(talk)@, final(talk)@, r, |set: String| set@),
{
    let screens = Screens::load(talk)?;
    let here = screens.focused()?;
    if let Some(set) = screens.assignments.get(here.id.as_str()) {
        return Ok(set.to_owned());
    }
    claim(talk, &screens, here)
}

/// Exchanges the sets of two monitors.
fn swap(
    talk: &mut Talk,
    screens: &Screens,
    here: &Monitor,
    monitor: &str,
    previous: &str,
    set: &str,
) -> (r: Result<(), Stop>)
    ensures
        did(
            swap_program(screens@, here@, monitor@, previous@, set@),
            old(talk)@,
            final(talk)@,
            r,
            |u: ()| u,
        ),
{
    let there = screens.by_id(monitor)?;
    let mut assignments = screens.assignments.clone();
    assignments.assign(here.id.as_str(), set);
    assignments.assign(there.id.as_str(), previous);
    save_assignments(talk, &assignments)?;
    remember_workspace(talk, previous, borrowed(&here.visible))?;
    remember_workspace(talk, set, borrowed(&there.visible))?;
    let leaving = last_workspace(talk, previous)?;
    let arriving = last_workspace(talk, set)?;
    exchange(talk, here, there, previous, set, &leaving, &arriving)
}

/// Brings two sets to the monitors that exchange them and shows them there.
fn exchange(
    talk: &mut Talk,
    here: &Monitor,
    there: &Monitor,
    previous: &str,
    set: &str,
    leaving: &Option<String>,
    arriving: &Option<String>,
) -> (r: Result<(), Stop>)
    ensures
        did(
            exchange_program(
                here@,
                there@,
                previous@,
                set@,
                view_of(*leaving),
                view_of(*arriving),
            ),
            old(talk)@,
            final(talk)@,
            r,
            |u: ()| u,
        ),
{
    bring(talk, set, here)?;
    bring(talk, previous, there)?;
    let left = visible_or_home(borrowed(&here.visible), borrowed(leaving), previous);
    show(talk, there, left.as_str())?;
    let taken = visible_or_home(borrowed(&there.visible), borrowed(arriving), set);
    show(talk, here, taken.as_str())
}

/// Puts a set in the place of another.
fn replace(
    talk: &mut Talk,
    screens: &Screens,
    here: &Monitor,
    previous: &str,
    set: &str,
) -> (r: Result<(), Stop>)
    ensures
        did(
            replace_program(screens@, here@, previous@, set@),
            old(talk)@,
            final(talk)@,
            r,
            |u: ()| u,
        ),
{
    remember_workspace(talk, previous, borrowed(&here.visible))?;
    ice_set(talk, previous)?;
    let mut assignments = screens.assignments.clone();
    assignments.assign(here.id.as_str(), set);
    save_assignments(talk, &assignments)?;
    let arriving = last_workspace(talk, set)?;
    bring(talk, set, here)?;
    let taken = visible_or_home(borrowed(&here.visible), borrowed(&arriving), set);
    show(talk, here, taken.as_str())
}

/// Carries out a plan.
fn carry_out(talk: &mut Talk, screens: &Screens, here: &Monitor, set: &str, plan: Change) -> (r:
    Result<(), Stop>)
    ensures
        did(
            carry_out_program(screens@, here@, set@, plan@),
            old(talk)@,
            final(talk)@,
            r,
            |u: ()| u,
        ),
{
    match plan {
        Change::Unchanged => Ok(()),
        Change::Swap { monitor, old } => swap(
            talk,
            screens,
            here,
            monitor.as_str(),
            old.as_str(),
            set,
        ),
        Change::Replace { old } => replace(talk, screens, here, old.as_str(), set),
    }
}

/// Show `set` on the focused monitor. A set shown on another monitor swaps
/// with this one's; otherwise this monitor's set is iced.
pub fn change_set(talk: &mut Talk, set: &str) -> (r: Result<(), Stop>)
    ensures
        did(change_set_program(set@), old(talk)@, final(talk)@, r, |u: ()| u),
{
    let current = ensure_set(talk)?;
    let screens = Screens::load(talk)?;
    let here = screens.focused()?;
    touch_set(talk, set)?;
    let ids = screens.ids();
    let plan = screens.assignments.plan(here.id.as_str(), current.as_str(), set, &ids);
    carry_out(talk, &screens, here, set, plan)?;
    carry_pins(talk, set)
}

/// Move one pinned window into `set` and swap it into the top-left slot,
/// displacing the window that held it into the slot the pin arrived in.
pub fn place_pin(talk: &mut Talk, pin: &Pin, set: &str) -> (r: Result<(), Stop>)
    ensures
        did(place_pin_program(*pin, set@), old(talk)@, final(talk)@, r, |u: ()| u),
{
    let workspace = workspace_name(pin.key, set);
    let tree = tree(talk)?;
    let mut held: Option<i64> = None;
    if let Some(node) = find_workspace(tree, workspace.as_str()) {
        if let Some(id) = first_tiled_window(node) {
            if id != pin.con_id {
                held = Some(id);
            }
        }
    }
    assert(held == resident(*tree, *pin, workspace@));
    talk.run(carry_to(pin.con_id, workspace.as_str()))?;
    match held {
        Some(id) => talk.run(swap_with(pin.con_id, id)),
        None => Ok(()),
    }
}

/// Places pinned windows, the last of them first.
fn place_pins(talk: &mut Talk, pins: &Vec<Pin>, set: &str) -> (r: Result<(), Stop>)
    ensures
        did(place_pins_program(pins@, set@), old(talk)@, final(talk)@, r, |u: ()| u),
{
    let ghost start = talk@;
    let mut n: usize = pins.len();
    assert(pins@.take(n as int) == pins@);
    while n > 0
        invariant
            n <= pins@.len(),
            start == old(talk)@,
            place_pins_program(pins@, set@)(start) == place_pins_program(
                pins@.take(n as int),
                set@,
            )(talk@),
        decreases n,
    {
        assert(pins@.take(n as int).drop_last() == pins@.take(n - 1));
        place_pin(talk, &pins[n - 1], set)?;
        n -= 1;
    }
    Ok(())
}

/// Carry every pinned window to its key in `set`, dropping pins whose
/// window has closed. Pins are placed in reverse order so that the first
/// pinned window of a workspace ends up holding the top-left slot.
pub fn carry_pins(talk: &mut Talk, set: &str) -> (r: Result<(), Stop>)
    ensures
        did(carry_pins_program(set@), old(talk)@, final(talk)@, r, |u: ()| u),
{
    let pins = pins(talk)?;
    let tree = tree(talk)?;
    let live = all_window_ids(tree);
    let kept = retain_live_pins(&pins, &live);
    if kept.len() != pins.len() {
        save_pins(talk, retain_live_pins(&pins, &live))?;
    }
    place_pins(talk, &kept, set)
}

/// The names of workspaces.
fn workspace_names(workspaces: &Vec<Workspace>) -> (r: Vec<String>)
    ensures
        views(r@) == names_of(workspaces@),
{
    let mut names: Vec<String> = Vec::new();
    let mut i: usize = 0;
    while i < workspaces.len()
        invariant
            i <= workspaces@.len(),
            views(names@) == names_of(workspaces@).take(i as int),
        decreases workspaces.len() - i,
    {
        let ghost before = views(names@);
        let name = workspaces[i].name.clone();
        names.push(name);
        assert(views(names@) == before.push(name@));
        i += 1;
    }
    assert(names_of(workspaces@).take(i as int) == names_of(workspaces@));
    names
}

/// The sets to offer, dropping those nothing is left in.
pub fn prune_sets(talk: &mut Talk) -> (r: Result<Vec<String>, Stop>)
    ensures
        did(prune_sets_program(), old(talk)@, final(talk)@, r, |sets: Vec<String>| views(sets@)),
{
    let screens = Screens::load(talk)?;
    let shown = screens.shown();
    let names = workspace_names(workspaces(talk)?);
    let known = list_sets(talk)?;
    let iced = list_iced(talk)?;
    let sets = retain_live(known, &names, &iced, &shown);
    save_sets(talk, &sets)?;
    let mut last = last_workspaces(talk)?;
    last.retain_keys(&sets);
    save_last_workspaces(talk, &last)?;
    Ok(sets)
}

/// The test for workspaces of a set that are not on an output.
pub open spec fn elsewhere(set: Seq<char>, output: Seq<char>) -> spec_fn(Workspace) -> bool {
    |w: Workspace| belongs(w.name@, set) && w.output@ != output
}

/// The commands that move workspaces to an output, in their order.
pub open spec fn all_to(workspaces: Seq<Workspace>, output: Seq<char>) -> Seq<Seq<char>> {
    Seq::new(workspaces.len(), |i: int| bring_command(workspaces[i].name@, output))
}

/// Bringing a set to an output takes exactly the workspaces of the set that
/// are on other outputs, in their order.
pub proof fn law_bringing_takes_the_workspaces_elsewhere(
    workspaces: Seq<Workspace>,
    set: Seq<char>,
    output: Seq<char>,
)
    ensures
        bring_commands(workspaces, set, output) == all_to(
            workspaces.filter(elsewhere(set, output)),
            output,
        ),
    decreases workspaces.len(),
{
    let f = elsewhere(set, output);
    reveal(Seq::filter);
    if workspaces.len() > 0 {
        law_bringing_takes_the_workspaces_elsewhere(workspaces.drop_last(), set, output);
    }
}

} // verus!
