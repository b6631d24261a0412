//! Freezing a set and thawing it.

use crate::dialogue::{
    attempt_program, bind, did, give, tell, Ask, Dialogue, Halt, Program, Request, Stop, Talk,
};
use crate::pins::{pinned_ids, pinned_windows, Pin};
use crate::snapshot::{
    collect_snapshot_ids, shots, snapshot_ids, strip_pins, stripped, trees, Snapshot, Tree,
    TreeNode, WorkspaceSnapshot,
};
use crate::state::{
    load_ice, load_ice_program, pins, pins_program, remove_ice, remove_ice_program, save_ice,
    save_ice_program, tree, tree_program,
};
use crate::sway::{
    float, float_command, lay_out, lay_out_command, move_command, move_to, split, split_command,
};
use crate::tree::{find_workspaces, set_snapshots, Node};
use crate::workspace::PARKING_WORKSPACE;
use vstd::prelude::*;

verus! {

/// Moves windows to a workspace one after another, whether they get there or
/// not.
pub open spec fn move_all_program(ids: Seq<i64>, workspace: Seq<char>) -> Program<()>
    decreases ids.len(),
{
    if ids.len() == 0 {
        give(Ok(()))
    } else {
        bind(
            move_all_program(ids.drop_last(), workspace),
            |u: ()| tell(Ask::Run(move_command(ids.last(), workspace))),
        )
    }
}

/// Restores a saved node: a window counts when it could be moved, and floats
/// again if it did; between the children of a container that is not the first
/// on its workspace the layout is split.
pub open spec fn restore_node_program(
    node: Tree,
    workspace: Seq<char>,
    is_first: bool,
) -> Program<nat>
    decreases node,
{
    match node {
        Tree::Window { con_id, floating, .. } => bind(
            attempt_program(move_command(con_id, workspace)),
            |moved: bool|
                if moved {
                    bind(
                        if floating {
                            tell(Ask::Run(float_command(con_id)))
                        } else {
                            give(Ok(()))
                        },
                        |u: ()| give(Ok(1nat)),
                    )
                } else {
                    give(Ok(0nat))
                },
        ),
        Tree::Container { layout, children } => restore_children_program(
            children,
            layout,
            workspace,
            is_first,
        ),
    }
}

/// Restores the children of a container, and counts the windows restored.
pub open spec fn restore_children_program(
    children: Seq<Tree>,
    layout: Seq<char>,
    workspace: Seq<char>,
    is_first: bool,
) -> Program<nat>
    decreases children,
{
    if children.len() == 0 {
        give(Ok(0nat))
    } else {
        bind(
            restore_children_program(children.drop_last(), layout, workspace, is_first),
            |n: nat|
                bind(
                    if children.len() > 1 && !is_first {
                        tell(Ask::Run(split_command(layout)))
                    } else {
                        give(Ok(()))
                    },
                    |u: ()|
                        bind(
                            restore_node_program(
                                children.last(),
                                workspace,
                                is_first && children.len() == 1,
                            ),
                            |m: nat| give(Ok(n + m)),
                        ),
                ),
        )
    }
}

/// Restores saved trees on a workspace, and counts the windows restored.
pub open spec fn restore_tree_program(tree: Seq<Tree>, workspace: Seq<char>) -> Program<nat>
    decreases tree.len(),
{
    if tree.len() == 0 {
        give(Ok(0nat))
    } else {
        bind(
            restore_tree_program(tree.drop_last(), workspace),
            |n: nat|
                bind(
                    restore_node_program(tree.last(), workspace, true),
                    |m: nat| give(Ok(n + m)),
                ),
        )
    }
}

/// Restores snapshots and lays their workspaces out, and counts the windows
/// restored.
pub open spec fn restore_all_program(snapshots: Seq<Snapshot>) -> Program<nat>
    decreases snapshots.len(),
{
    if snapshots.len() == 0 {
        give(Ok(0nat))
    } else {
        let last = snapshots.last();
        bind(
            restore_all_program(snapshots.drop_last()),
            |n: nat|
                bind(
                    restore_tree_program(last.tree, last.name),
                    |m: nat|
                        bind(
                            tell(Ask::Run(lay_out_command(last.name, last.layout))),
                            |u: ()| give(Ok(n + m)),
                        ),
                ),
        )
    }
}

/// The snapshots that freezing a set stores.
pub open spec fn frozen(tree: Node, set: Seq<char>, pins: Seq<Pin>) -> Seq<Snapshot> {
    stripped(set_snapshots(tree, set), pinned_windows(pins))
}

/// Stores the snapshots of a set and then parks windows of it.
pub open spec fn park_program(
    set: Seq<char>,
    snapshots: Seq<Snapshot>,
    ids: Seq<i64>,
) -> Program<()> {
    bind(
        save_ice_program(set, snapshots),
        |u: ()| move_all_program(ids, PARKING_WORKSPACE@),
    )
}

/// Freezes a set: stores its windows, but for the pinned ones, and then parks
/// them. A set without windows is left alone.
pub open spec fn ice_set_program(set: Seq<char>) -> Program<nat> {
    bind(
        tree_program(),
        |tree: Node|
            bind(
                pins_program(),
                |pins: Seq<Pin>|
                    {
                        let snapshots = frozen(tree, set, pins);
                        if snapshots.len() == 0 {
                            give(Ok(0nat))
                        } else {
                            bind(
                                park_program(set, snapshots, snapshot_ids(snapshots)),
                                |u: ()| give(Ok(snapshot_ids(snapshots).len())),
                            )
                        }
                    },
            ),
    )
}

/// Thaws a set: restores its windows and then removes what was stored. The
/// result is how many windows were restored, of how many.
pub open spec fn thaw_set_program(set: Seq<char>) -> Program<(nat, nat)> {
    bind(
        load_ice_program(set),
        |snapshots: Seq<Snapshot>|
            bind(
                restore_all_program(snapshots),
                |restored: nat|
                    bind(
                        remove_ice_program(set),
                        |u: ()| give(Ok((restored, snapshot_ids(snapshots).len()))),
                    ),
            ),
    )
}

/// Moves windows to a workspace one after another.
pub fn move_all(talk: &mut Talk, ids: &Vec<i64>, workspace: &str) -> (r: Result<(), Stop>)
    ensures
        did(move_all_program(ids@, workspace@), old(talk)@, final(talk)@, r, |u: ()| u),
{
    let ghost start = talk@;
    let mut i: usize = 0;
    while i < ids.len()
        invariant
            i <= ids@.len(),
            start == old(talk)@,
            move_all_program(ids@.take(i as int), workspace@)(start) == (talk@, Ok::<(), Halt>(())),
        decreases ids.len() - i,
    {
        assert(ids@.take(i + 1).drop_last() == ids@.take(i as int));
        match talk.tell(Request::Run(move_to(ids[i], workspace))) {
            Ok(()) => {},
            Err(stop) => {
                proof {
                    lemma_move_all_stops(ids@, workspace@, i + 1, start);
                }
                return Err(stop);
            },
        }
        i += 1;
    }
    assert(ids@.take(i as int) == ids@);
    Ok(())
}

proof fn lemma_move_all_stops(ids: Seq<i64>, workspace: Seq<char>, n: int, d: Dialogue)
    requires
        0 <= n <= ids.len(),
        move_all_program(ids.take(n), workspace)(d).1 is Err,
    ensures
        move_all_program(ids, workspace)(d) == move_all_program(ids.take(n), workspace)(d),
    decreases ids.len(),
{
    if n == ids.len() {
        assert(ids.take(n) == ids);
    } else {
        assert(ids.drop_last().take(n) == ids.take(n));
        lemma_move_all_stops(ids.drop_last(), workspace, n, d);
    }
}

/// Restores a saved node.
pub fn restore_node(talk: &mut Talk, node: &TreeNode, workspace: &str, is_first: bool) -> (r:
    Result<usize, Stop>)
    ensures
        did(
            restore_node_program(node@, workspace@, is_first),
            old(talk)@,
            final(talk)@,
            r,
            |n: usize| n as nat,
        ),
        match r {
            Ok(n) => old(talk)@.asked.len() + n <= final(talk)@.asked.len(),
            Err(_) => true,
        },
    decreases node,
{
    match node {
        TreeNode::Window { con_id, floating, .. } => {
            let moved = talk.attempt(move_to(*con_id, workspace))?;
            if moved {
                if *floating {
                    talk.tell(Request::Run(float(*con_id)))?;
                }
                Ok(1)
            } else {
                Ok(0)
            }
        },
        TreeNode::Container { layout, children } => {
            assert(node@->children =~= trees(children@));
            restore_children(talk, children, layout.as_str(), workspace, is_first)
        },
    }
}

/// Restores the children of a container.
fn restore_children(
    talk: &mut Talk,
    children: &Vec<TreeNode>,
    layout: &str,
    workspace: &str,
    is_first: bool,
) -> (r: Result<usize, Stop>)
    ensures
        did(
            restore_children_program(trees(children@), layout@, workspace@, is_first),
            old(talk)@,
            final(talk)@,
            r,
            |n: usize| n as nat,
        ),
        match r {
            Ok(n) => old(talk)@.asked.len() + n <= final(talk)@.asked.len(),
            Err(_) => true,
        },
    decreases children,
{
    let ghost start = talk@;
    let ghost all = trees(children@);
    let mut count: usize = 0;
    let mut i: usize = 0;
    while i < children.len()
        invariant
            i <= children@.len(),
            all == trees(children@),
            start == old(talk)@,
            restore_children_program(all.take(i as int), layout@, workspace@, is_first)(start) == (
                talk@,
                Ok::<nat, Halt>(count as nat),
            ),
            start.asked.len() + count <= talk@.asked.len(),
        decreases children.len() - i,
    {
        proof {
            assert(all.take(i + 1).drop_last() == all.take(i as int));
            assert(all.take(i + 1).last() == children@[i as int]@);
        }
        if i > 0 && !is_first {
            match talk.tell(Request::Run(split(layout))) {
                Ok(()) => {},
                Err(stop) => {
                    proof {
                        lemma_children_stop(all, layout@, workspace@, is_first, i + 1, start);
                    }
                    return Err(stop);
                },
            }
        }
        match restore_node(talk, &children[i], workspace, is_first && i == 0) {
            Ok(more) => {
                let asked: usize = talk.count();
                assert(count + more <= asked);
                count += more;
            },
            Err(stop) => {
                proof {
                    lemma_children_stop(all, layout@, workspace@, is_first, i + 1, start);
                }
                return Err(stop);
            },
        }
        i += 1;
    }
    assert(all.take(i as int) == all);
    Ok(count)
}

proof fn lemma_children_stop(
    children: Seq<Tree>,
    layout: Seq<char>,
    workspace: Seq<char>,
    is_first: bool,
    n: int,
    d: Dialogue,
)
    requires
        0 <= n <= children.len(),
        restore_children_program(children.take(n), layout, workspace, is_first)(d).1 is Err,
    ensures
        restore_children_program(children, layout, workspace, is_first)(d)
            == restore_children_program(children.take(n), layout, workspace, is_first)(d),
    decreases children.len(),
{
    if n == children.len() {
        assert(children.take(n) == children);
    } else {
        assert(children.drop_last().take(n) == children.take(n));
        lemma_children_stop(children.drop_last(), layout, workspace, is_first, n, d);
    }
}

/// Restore tree structure in a workspace
pub fn restore_tree(talk: &mut Talk, tree: &Vec<TreeNode>, workspace: &str) -> (r: Result<
    usize,
    Stop,
>)
    ensures
        did(
            restore_tree_program(trees(tree@), workspace@),
            old(talk)@,
            final(talk)@,
            r,
            |n: usize| n as nat,
        ),
        match r {
            Ok(n) => old(talk)@.asked.len() + n <= final(talk)@.asked.len(),
            Err(_) => true,
        },
{
    let ghost start = talk@;
    let ghost all = trees(tree@);
    let mut count: usize = 0;
    let mut i: usize = 0;
    while i < tree.len()
        invariant
            i <= tree@.len(),
            all == trees(tree@),
            start == old(talk)@,
            restore_tree_program(all.take(i as int), workspace@)(start) == (
                talk@,
                Ok::<nat, Halt>(count as nat),
            ),
            start.asked.len() + count <= talk@.asked.len(),
        decreases tree.len() - i,
    {
        proof {
            assert(all.take(i + 1).drop_last() == all.take(i as int));
            assert(all.take(i + 1).last() == tree@[i as int]@);
        }
        match restore_node(talk, &tree[i], workspace, true) {
            Ok(more) => {
                let asked: usize = talk.count();
                assert(count + more <= asked);
                count += more;
            },
            Err(stop) => {
                proof {
                    lemma_restore_tree_stops(all, workspace@, i + 1, start);
                }
                return Err(stop);
            },
        }
        i += 1;
    }
    assert(all.take(i as int) == all);
    Ok(count)
}

proof fn lemma_restore_tree_stops(tree: Seq<Tree>, workspace: Seq<char>, n: int, d: Dialogue)
    requires
        0 <= n <= tree.len(),
        restore_tree_program(tree.take(n), workspace)(d).1 is Err,
    ensures
        restore_tree_program(tree, workspace)(d) == restore_tree_program(tree.take(n), workspace)(
            d,
        ),
    decreases tree.len(),
{
    if n == tree.len() {
        assert(tree.take(n) == tree);
    } else {
        assert(tree.drop_last().take(n) == tree.take(n));
        lemma_restore_tree_stops(tree.drop_last(), workspace, n, d);
    }
}

/// Restores snapshots and lays their workspaces out.
fn restore_all(talk: &mut Talk, snapshots: &Vec<WorkspaceSnapshot>) -> (r: Result<usize, Stop>)
    ensures
        did(
            restore_all_program(shots(snapshots@)),
            old(talk)@,
            final(talk)@,
            r,
            |n: usize| n as nat,
        ),
{
    let ghost start = talk@;
    let ghost all = shots(snapshots@);
    let mut count: usize = 0;
    let mut i: usize = 0;
    while i < snapshots.len()
        invariant
            i <= snapshots@.len(),
            all == shots(snapshots@),
            start == old(talk)@,
            restore_all_program(all.take(i as int))(start) == (
                talk@,
                Ok::<nat, Halt>(count as nat),
            ),
            start.asked.len() + count <= talk@.asked.len(),
        decreases snapshots.len() - i,
    {
        proof {
            assert(all.take(i + 1).drop_last() == all.take(i as int));
            assert(all.take(i + 1).last() == snapshots@[i as int]@);
        }
        let snapshot = &snapshots[i];
        match restore_tree(talk, &snapshot.tree, snapshot.name.as_str()) {
            Ok(more) => {
                let asked: usize = talk.count();
                assert(count + more <= asked);
                count += more;
            },
            Err(stop) => {
                proof {
                    lemma_restore_all_stops(all, i + 1, start);
                }
                return Err(stop);
            },
        }
        let command = lay_out(snapshot.name.as_str(), snapshot.layout.as_str());
        match talk.tell(Request::Run(command)) {
            Ok(()) => {},
            Err(stop) => {
                proof {
                    lemma_restore_all_stops(all, i + 1, start);
                }
                return Err(stop);
            },
        }
        i += 1;
    }
    assert(all.take(i as int) == all);
    Ok(count)
}

proof fn lemma_restore_all_stops(snapshots: Seq<Snapshot>, n: int, d: Dialogue)
    requires
        0 <= n <= snapshots.len(),
        restore_all_program(snapshots.take(n))(d).1 is Err,
    ensures
        restore_all_program(snapshots)(d) == restore_all_program(snapshots.take(n))(d),
    decreases snapshots.len(),
{
    if n == snapshots.len() {
        assert(snapshots.take(n) == snapshots);
    } else {
        assert(snapshots.drop_last().take(n) == snapshots.take(n));
        lemma_restore_all_stops(snapshots.drop_last(), n, d);
    }
}

/// Stores the snapshots of a set and then parks windows of it.
pub fn park(talk: &mut Talk, set: &str, snapshots: Vec<WorkspaceSnapshot>, ids: &Vec<i64>) -> (r:
    Result<(), Stop>)
    ensures
        did(
            park_program(set@, shots(snapshots@), ids@),
            old(talk)@,
            final(talk)@,
            r,
            |u: ()| u,
        ),
{
    save_ice(talk, set, snapshots)?;
    move_all(talk, ids, PARKING_WORKSPACE)
}

/// Ice a set: save windows, move to parking
pub fn ice_set(talk: &mut Talk, set_name: &str) -> (r: Result<usize, Stop>)
    ensures
        did(ice_set_program(set_name@), old(talk)@, final(talk)@, r, |n: usize| n as nat),
{
    let tree = tree(talk)?;
    let mut snapshots: Vec<WorkspaceSnapshot> = Vec::new();
    assert(shots(snapshots@) == Seq::<Snapshot>::empty());
    find_workspaces(tree, set_name, &mut snapshots);
    assert(shots(snapshots@) == set_snapshots(*tree, set_name@));
    let pins = pins(talk)?;
    let pinned = pinned_ids(&pins);
    strip_pins(&mut snapshots, &pinned);
    let ghost stored = shots(snapshots@);
    assert(stored == frozen(*tree, set_name@, pins@));
    if snapshots.len() == 0 {
        return Ok(0);
    }
    let ids = collect_snapshot_ids(&snapshots);
    park(talk, set_name, snapshots, &ids)?;
    Ok(ids.len())
}

/// Thaw a set: restore windows from parking
pub fn thaw_set(talk: &mut Talk, set_name: &str) -> (r: Result<(usize, usize), Stop>)
    ensures
        did(
            thaw_set_program(set_name@),
            old(talk)@,
            final(talk)@,
            r,
            |n: (usize, usize)| (n.0 as nat, n.1 as nat),
        ),
{
    let snapshots = load_ice(talk, set_name)?;
    let ids = collect_snapshot_ids(snapshots);
    let restored = restore_all(talk, snapshots)?;
    remove_ice(talk, set_name)?;
    Ok((restored, ids.len()))
}

} // verus!
