//! What is kept in the state files, and what is read from sway.

use crate::assignments::Assignments;
use crate::dialogue::{
    ask, bind, did, fault, fault_in, give, perform, Ask, Failure, Fault, File, Halt, Program, Reply,
    Request, Stop, Talk, Workspace,
};
use crate::json::{object_entries, object_text};
use crate::pins::Pin;
use crate::sets::{
    default_names, default_sets, file_stems, ice_file, ice_name, is_first, leads, list_text, listed,
    move_to_front, parse_sets, render_sets, stems, touched,
};
use crate::snapshot::{shots, Snapshot, WorkspaceSnapshot};
use crate::string_map::{StringMap, TextMap};
use crate::text::{join, joined, trim, trimmed, view_of, view_of_str, views};
use crate::tree::Node;
use crate::workspace::{belongs, workspace_belongs_to_set};
use vstd::prelude::*;

verus! {

/// Reads the stored assignments; there are none before any are stored.
pub open spec fn assignments_program() -> Program<TextMap> {
    bind(
        ask(Ask::Read(File::Assignments)),
        |reply: Reply|
            give(
                match reply {
                    Reply::Text(text) => match object_entries(text@) {
                        Some(shown) => Ok(shown),
                        None => Err(Halt::Failed(Fault::Corrupt)),
                    },
                    Reply::Missing => Ok(Map::empty()),
                    _ => Err(fault_in(reply)),
                },
            ),
    )
}

/// Stores the assignments.
pub open spec fn save_assignments_program(shown: TextMap) -> Program<()> {
    perform(Ask::Write(File::Assignments, object_text(shown)))
}

/// Reads the known sets; where no list can be read, those known at first.
pub open spec fn list_sets_program() -> Program<Seq<Seq<char>>> {
    bind(
        ask(Ask::Read(File::Sets)),
        |reply: Reply|
            give(
                match reply {
                    Reply::Text(text) => Ok(listed(text@)),
                    Reply::Missing => Ok(default_names()),
                    Reply::Failed => Ok(default_names()),
                    _ => Err(fault_in(reply)),
                },
            ),
    )
}

/// Stores the known sets.
pub open spec fn save_sets_program(sets: Seq<Seq<char>>) -> Program<()> {
    perform(Ask::Write(File::Sets, list_text(sets)))
}

/// Records a set as the most recently used, unless it is already.
pub open spec fn touch_set_program(name: Seq<char>) -> Program<()> {
    bind(
        list_sets_program(),
        |sets: Seq<Seq<char>>|
            if leads(sets, name) {
                give(Ok(()))
            } else {
                save_sets_program(touched(sets, name))
            },
    )
}

/// Reads where the sets were last left; nowhere, where that cannot be read.
pub open spec fn last_workspaces_program() -> Program<TextMap> {
    bind(
        ask(Ask::Read(File::Last)),
        |reply: Reply|
            give(
                match reply {
                    Reply::Text(text) => match object_entries(text@) {
                        Some(last) => Ok(last),
                        None => Ok(Map::empty()),
                    },
                    Reply::Missing => Ok(Map::empty()),
                    Reply::Failed => Ok(Map::empty()),
                    _ => Err(fault_in(reply)),
                },
            ),
    )
}

/// Stores where the sets were last left.
pub open spec fn save_last_workspaces_program(last: TextMap) -> Program<()> {
    perform(Ask::Write(File::Last, object_text(last)))
}

/// Reads where a set was last left.
pub open spec fn last_workspace_program(set: Seq<char>) -> Program<Option<Seq<char>>> {
    bind(last_workspaces_program(), |last: TextMap| give(Ok(last.get(set))))
}

/// Records where a set was left, unless at a workspace of another set or none
/// at all.
pub open spec fn remember_workspace_program(
    set: Seq<char>,
    workspace: Option<Seq<char>>,
) -> Program<()> {
    if workspace is Some && belongs(workspace->0, set) {
        bind(
            last_workspaces_program(),
            |last: TextMap| save_last_workspaces_program(last.insert(set, workspace->0)),
        )
    } else {
        give(Ok(()))
    }
}

/// Stores the snapshots of a set.
pub open spec fn save_ice_program(set: Seq<char>, snapshots: Seq<Snapshot>) -> Program<()> {
    perform(Ask::WriteIce(ice_name(set), snapshots))
}

/// Reads the snapshots of a set.
pub open spec fn load_ice_program(set: Seq<char>) -> Program<Seq<Snapshot>> {
    bind(
        ask(Ask::ReadIce(ice_name(set))),
        |reply: Reply|
            give(
                match reply {
                    Reply::Snapshots(snapshots) => Ok(shots(snapshots@)),
                    _ => Err(fault_in(reply)),
                },
            ),
    )
}

/// Removes the snapshots of a set.
pub open spec fn remove_ice_program(set: Seq<char>) -> Program<()> {
    perform(Ask::RemoveIce(ice_name(set)))
}

/// Lists the frozen sets.
pub open spec fn list_iced_program() -> Program<Seq<Seq<char>>> {
    bind(
        ask(Ask::ListIced),
        |reply: Reply|
            give(
                match reply {
                    Reply::Names(names) => Ok(stems(views(names@))),
                    Reply::Missing => Ok(seq![]),
                    _ => Err(fault_in(reply)),
                },
            ),
    )
}

/// Reads the pins; there are none where they cannot be read.
pub open spec fn pins_program() -> Program<Seq<Pin>> {
    bind(
        ask(Ask::ReadPins),
        |reply: Reply|
            give(
                match reply {
                    Reply::Pins(pins) => Ok(pins@),
                    Reply::Missing => Ok(seq![]),
                    Reply::Failed => Ok(seq![]),
                    _ => Err(fault_in(reply)),
                },
            ),
    )
}

/// Stores the pins.
pub open spec fn save_pins_program(pins: Seq<Pin>) -> Program<()> {
    perform(Ask::WritePins(pins))
}

/// Stores the set that windows are to be delivered to.
pub open spec fn set_pending_target_program(set: Seq<char>) -> Program<()> {
    perform(Ask::Write(File::Pending, set))
}

/// Reads the set that windows are to be delivered to, if there is one.
pub open spec fn get_pending_target_program() -> Program<Option<Seq<char>>> {
    bind(
        ask(Ask::Read(File::Pending)),
        |reply: Reply|
            give(
                match reply {
                    Reply::Text(text) => Ok(Some(trimmed(text@))),
                    Reply::Missing => Ok(None),
                    Reply::Failed => Ok(None),
                    _ => Err(fault_in(reply)),
                },
            ),
    )
}

/// Forgets the set that windows are to be delivered to.
pub open spec fn clear_pending_target_program() -> Program<()> {
    perform(Ask::Remove(File::Pending))
}

/// Reads the tree of windows.
pub open spec fn tree_program() -> Program<Node> {
    bind(
        ask(Ask::Tree),
        |reply: Reply|
            give(
                match reply {
                    Reply::Tree(tree) => Ok(tree),
                    _ => Err(fault_in(reply)),
                },
            ),
    )
}

/// Reads the workspaces.
pub open spec fn workspaces_program() -> Program<Seq<Workspace>> {
    bind(
        ask(Ask::Workspaces),
        |reply: Reply|
            give(
                match reply {
                    Reply::Workspaces(workspaces) => Ok(workspaces@),
                    _ => Err(fault_in(reply)),
                },
            ),
    )
}

/// The text that the user chose, if any.
pub open spec fn chosen(text: Seq<char>) -> Option<Seq<char>> {
    if trimmed(text).len() == 0 {
        None
    } else {
        Some(trimmed(text))
    }
}

/// Lets the user choose one of the options.
pub open spec fn select_program(prompt: Seq<char>, options: Seq<Seq<char>>) -> Program<
    Option<Seq<char>>,
> {
    bind(
        ask(Ask::Select { prompt, options: joined(options, "\n"@) }),
        |reply: Reply|
            give(
                match reply {
                    Reply::Text(text) => Ok(chosen(text@)),
                    _ => Err(fault_in(reply)),
                },
            ),
    )
}

/// Reads the stored assignments.
pub fn assignments(talk: &mut Talk) -> (r: Result<Assignments, Stop>)
    ensures
        did(assignments_program(), old(talk)@, final(talk)@, r, |a: Assignments| a@),
{
    let reply = talk.ask(Request::Read(File::Assignments))?;
    match reply {
        Reply::Text(text) => match Assignments::from_json(text.as_str()) {
            Ok(assignments) => Ok(assignments),
            Err(e) => Err(Stop::Failed(Failure::Corrupt(e))),
        },
        Reply::Missing => Ok(Assignments::default()),
        _ => Err(fault(reply)),
    }
}

/// Stores the assignments, in a text that they are read back from.
pub fn save_assignments(talk: &mut Talk, assignments: &Assignments) -> (r: Result<(), Stop>)
    ensures
        did(save_assignments_program(assignments@), old(talk)@, final(talk)@, r, |u: ()| u),
        object_entries(object_text(assignments@)) == Some(assignments@),
{
    talk.perform(Request::Write(File::Assignments, assignments.to_json()))
}

/// Reads the known sets.
pub fn list_sets(talk: &mut Talk) -> (r: Result<Vec<String>, Stop>)
    ensures
        did(list_sets_program(), old(talk)@, final(talk)@, r, |sets: Vec<String>| views(sets@)),
{
    let reply = talk.ask(Request::Read(File::Sets))?;
    match reply {
        Reply::Text(text) => Ok(parse_sets(text.as_str())),
        Reply::Missing => Ok(default_sets()),
        Reply::Failed => Ok(default_sets()),
        _ => Err(fault(reply)),
    }
}

/// Stores the known sets.
pub fn save_sets(talk: &mut Talk, sets: &[String]) -> (r: Result<(), Stop>)
    ensures
        did(save_sets_program(views(sets@)), old(talk)@, final(talk)@, r, |u: ()| u),
{
    talk.perform(Request::Write(File::Sets, render_sets(sets)))
}

/// Record a set as the most recently used, so menus offer it first.
pub fn touch_set(talk: &mut Talk, name: &str) -> (r: Result<(), Stop>)
    ensures
        did(touch_set_program(name@), old(talk)@, final(talk)@, r, |u: ()| u),
{
    let sets = list_sets(talk)?;
    if is_first(&sets, name) {
        return Ok(());
    }
    let sets = move_to_front(&sets, name);
    save_sets(talk, &sets)
}

/// Reads where the sets were last left.
pub fn last_workspaces(talk: &mut Talk) -> (r: Result<StringMap, Stop>)
    ensures
        did(last_workspaces_program(), old(talk)@, final(talk)@, r, |last: StringMap| last@),
{
    let reply = talk.ask(Request::Read(File::Last))?;
    match reply {
        Reply::Text(text) => match StringMap::from_json(text.as_str()) {
            Ok(last) => Ok(last),
            Err(_) => Ok(StringMap::new()),
        },
        Reply::Missing => Ok(StringMap::new()),
        Reply::Failed => Ok(StringMap::new()),
        _ => Err(fault(reply)),
    }
}

/// Stores where the sets were last left, in a text that it is read back from.
pub fn save_last_workspaces(talk: &mut Talk, last: &StringMap) -> (r: Result<(), Stop>)
    ensures
        did(save_last_workspaces_program(last@), old(talk)@, final(talk)@, r, |u: ()| u),
        object_entries(object_text(last@)) == Some(last@),
{
    talk.perform(Request::Write(File::Last, last.to_json()))
}

/// Reads where a set was last left.
pub fn last_workspace(talk: &mut Talk, set: &str) -> (r: Result<Option<String>, Stop>)
    ensures
        did(
            last_workspace_program(set@),
            old(talk)@,
            final(talk)@,
            r,
            |last: Option<String>| view_of(last),
        ),
{
    let last = last_workspaces(talk)?;
    match last.get(set) {
        Some(workspace) => Ok(Some(workspace.to_owned())),
        None => Ok(None),
    }
}

/// Record where a set was left, ignoring a workspace of another set or
/// none at all.
pub fn remember_workspace(talk: &mut Talk, set: &str, workspace: Option<&str>) -> (r: Result<
    (),
    Stop,
>)
    ensures
        did(
            remember_workspace_program(set@, view_of_str(workspace)),
            old(talk)@,
            final(talk)@,
            r,
            |u: ()| u,
        ),
{
    if let Some(name) = workspace {
        if workspace_belongs_to_set(name, set) {
            let mut last = last_workspaces(talk)?;
            last.insert(set.to_owned(), name.to_owned());
            return save_last_workspaces(talk, &last);
        }
    }
    Ok(())
}

/// Stores the snapshots of a set.
pub fn save_ice(talk: &mut Talk, set: &str, snapshots: Vec<WorkspaceSnapshot>) -> (r: Result<
    (),
    Stop,
>)
    ensures
        did(save_ice_program(set@, shots(snapshots@)), old(talk)@, final(talk)@, r, |u: ()| u),
{
    talk.perform(Request::WriteIce(ice_file(set), snapshots))
}

/// Reads the snapshots of a set.
pub fn load_ice<'a>(talk: &mut Talk<'a>, set: &str) -> (r: Result<&'a Vec<WorkspaceSnapshot>, Stop>)
    ensures
        did(
            load_ice_program(set@),
            old(talk)@,
            final(talk)@,
            r,
            |snapshots: &Vec<WorkspaceSnapshot>| shots(snapshots@),
        ),
{
    let reply = talk.ask(Request::ReadIce(ice_file(set)))?;
    match reply {
        Reply::Snapshots(snapshots) => Ok(snapshots),
        _ => Err(fault(reply)),
    }
}

/// Removes the snapshots of a set.
pub fn remove_ice(talk: &mut Talk, set: &str) -> (r: Result<(), Stop>)
    ensures
        did(remove_ice_program(set@), old(talk)@, final(talk)@, r, |u: ()| u),
{
    talk.perform(Request::RemoveIce(ice_file(set)))
}

/// Lists the frozen sets.
pub fn list_iced(talk: &mut Talk) -> (r: Result<Vec<String>, Stop>)
    ensures
        did(list_iced_program(), old(talk)@, final(talk)@, r, |sets: Vec<String>| views(sets@)),
{
    let reply = talk.ask(Request::ListIced)?;
    match reply {
        Reply::Names(names) => Ok(file_stems(names)),
        Reply::Missing => {
            let none: Vec<String> = Vec::new();
            assert(views(none@) == Seq::<Seq<char>>::empty());
            Ok(none)
        },
        _ => Err(fault(reply)),
    }
}

/// Reads the pins.
pub fn pins(talk: &mut Talk) -> (r: Result<Vec<Pin>, Stop>)
    ensures
        did(pins_program(), old(talk)@, final(talk)@, r, |pins: Vec<Pin>| pins@),
{
    let reply = talk.ask(Request::ReadPins)?;
    match reply {
        Reply::Pins(pins) => Ok(copy_pins(pins)),
        Reply::Missing => Ok(Vec::new()),
        Reply::Failed => Ok(Vec::new()),
        _ => Err(fault(reply)),
    }
}

/// A copy of a list of pins.
fn copy_pins(pins: &Vec<Pin>) -> (r: Vec<Pin>)
    ensures
        r@ == pins@,
{
    let mut copy: Vec<Pin> = Vec::new();
    let mut i: usize = 0;
    while i < pins.len()
        invariant
            i <= pins@.len(),
            copy@ == pins@.take(i as int),
        decreases pins.len() - i,
    {
        copy.push(pins[i]);
        i += 1;
    }
    copy
}

/// Stores the pins.
pub fn save_pins(talk: &mut Talk, pins: Vec<Pin>) -> (r: Result<(), Stop>)
    ensures
        did(save_pins_program(pins@), old(talk)@, final(talk)@, r, |u: ()| u),
{
    talk.perform(Request::WritePins(pins))
}

/// Stores the set that windows are to be delivered to.
pub fn set_pending_target(talk: &mut Talk, set: &str) -> (r: Result<(), Stop>)
    ensures
        did(set_pending_target_program(set@), old(talk)@, final(talk)@, r, |u: ()| u),
{
    talk.perform(Request::Write(File::Pending, set.to_owned()))
}

/// Reads the set that windows are to be delivered to, if there is one.
pub fn get_pending_target(talk: &mut Talk) -> (r: Result<Option<String>, Stop>)
    ensures
        did(
            get_pending_target_program(),
            old(talk)@,
            final(talk)@,
            r,
            |set: Option<String>| view_of(set),
        ),
{
    let reply = talk.ask(Request::Read(File::Pending))?;
    match reply {
        Reply::Text(text) => Ok(Some(trim(text.as_str()))),
        Reply::Missing => Ok(None),
        Reply::Failed => Ok(None),
        _ => Err(fault(reply)),
    }
}

/// Forgets the set that windows are to be delivered to.
pub fn clear_pending_target(talk: &mut Talk) -> (r: Result<(), Stop>)
    ensures
        did(clear_pending_target_program(), old(talk)@, final(talk)@, r, |u: ()| u),
{
    talk.perform(Request::Remove(File::Pending))
}

/// Reads the tree of windows.
pub fn tree<'a>(talk: &mut Talk<'a>) -> (r: Result<&'a Node, Stop>)
    ensures
        did(tree_program(), old(talk)@, final(talk)@, r, |tree: &Node| *tree),
{
    let reply = talk.ask(Request::Tree)?;
    match reply {
        Reply::Tree(tree) => Ok(tree),
        _ => Err(fault(reply)),
    }
}

/// Reads the workspaces.
pub fn workspaces<'a>(talk: &mut Talk<'a>) -> (r: Result<&'a Vec<Workspace>, Stop>)
    ensures
        did(
            workspaces_program(),
            old(talk)@,
            final(talk)@,
            r,
            |workspaces: &Vec<Workspace>| workspaces@,
        ),
{
    let reply = talk.ask(Request::Workspaces)?;
    match reply {
        Reply::Workspaces(workspaces) => Ok(workspaces),
        _ => Err(fault(reply)),
    }
}

/// The text that the user chose, if any.
pub fn choice(text: &str) -> (r: Option<String>)
    ensures
        view_of(r) == chosen(text@),
{
    let bare = trim(text);
    if bare.as_str().is_empty() {
        None
    } else {
        Some(bare)
    }
}

/// Lets the user choose one of the options.
pub fn wofi_select(talk: &mut Talk, prompt: &str, options: &[String]) -> (r: Result<
    Option<String>,
    Stop,
>)
    ensures
        did(
            select_program(prompt@, views(options@)),
            old(talk)@,
            final(talk)@,
            r,
            |choice: Option<String>| view_of(choice),
        ),
{
    let options = join(options, "\n");
    let reply = talk.ask(Request::Select { prompt: prompt.to_owned(), options })?;
    match reply {
        Reply::Text(text) => Ok(choice(text.as_str())),
        _ => Err(fault(reply)),
    }
}

} // verus!
