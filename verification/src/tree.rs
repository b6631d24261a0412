//! The tree of windows that sway reports, and what is read from it.

use crate::snapshot::{
    all_ids, all_solid, any_holds_below, holds_below, law_solid_tree_holds_a_window,
    lemma_all_ids_concat, lemma_all_solid_concat, shots, solid, trees, window_ids, Snapshot, Tree,
    TreeNode, WorkspaceSnapshot,
};
use crate::text::{same_text, view_of};
use crate::workspace::{belongs, workspace_belongs_to_set};
use vstd::prelude::*;

verus! {

/// What a node of the tree is.
#[derive(Debug, Clone, Copy, PartialEq, Eq, Structural)]
pub enum NodeKind {
    Root,
    Output,
    Workspace,
    Con,
    FloatingCon,
    Other,
}

/// How a node lays out its children.
#[derive(Debug, Clone, Copy, PartialEq, Eq, Structural)]
pub enum Layout {
    SplitH,
    SplitV,
    Tabbed,
    Stacked,
    Other,
}

/// A node of the tree. A window has a process.
#[derive(Debug)]
pub struct Node {
    pub id: i64,
    pub kind: NodeKind,
    pub layout: Layout,
    pub name: Option<String>,
    pub app_id: Option<String>,
    pub pid: Option<i32>,
    pub focused: bool,
    pub nodes: Vec<Node>,
    pub floating_nodes: Vec<Node>,
}

/// The name that sway's `layout` command knows a layout by.
pub open spec fn layout_name(layout: Layout) -> Seq<char> {
    match layout {
        Layout::SplitH => "splith"@,
        Layout::SplitV => "splitv"@,
        Layout::Tabbed => "tabbed"@,
        Layout::Stacked => "stacking"@,
        Layout::Other => "splith"@,
    }
}

/// What is saved of a node: a window as it is, a container with what is saved
/// of its children, the single window of a container in its place.
pub open spec fn extracted(node: Node, floating: bool) -> Option<Tree>
    decreases node,
{
    if (node.kind == NodeKind::Con || node.kind == NodeKind::FloatingCon) && node.pid is Some {
        Some(
            Tree::Window {
                con_id: node.id,
                app_id: view_of(node.app_id),
                name: view_of(node.name),
                floating,
            },
        )
    } else if node.kind == NodeKind::Con || node.kind == NodeKind::FloatingCon {
        let children = all_extracted(node.nodes@, false);
        if children.len() == 0 {
            None
        } else if children.len() == 1 && children[0] is Window {
            Some(children[0])
        } else {
            Some(Tree::Container { layout: layout_name(node.layout), children })
        }
    } else {
        None
    }
}

/// What is saved of each node.
pub open spec fn all_extracted(nodes: Seq<Node>, floating: bool) -> Seq<Tree>
    decreases nodes,
{
    if nodes.len() == 0 {
        seq![]
    } else {
        let front = all_extracted(nodes.drop_last(), floating);
        match extracted(nodes.last(), floating) {
            Some(tree) => front.push(tree),
            None => front,
        }
    }
}

/// The trees saved of a workspace: the tiled ones, then the floating ones.
pub open spec fn workspace_trees(node: Node) -> Seq<Tree> {
    all_extracted(node.nodes@, false) + all_extracted(node.floating_nodes@, true)
}

/// The snapshot of a workspace, where anything is saved of it.
pub open spec fn snapshot_of(node: Node) -> Option<Snapshot> {
    if workspace_trees(node).len() == 0 {
        None
    } else {
        Some(
            Snapshot {
                name: match node.name {
                    Some(name) => name@,
                    None => seq![],
                },
                layout: layout_name(node.layout),
                tree: workspace_trees(node),
            },
        )
    }
}

/// The snapshot of a node that is a workspace of `set`.
pub open spec fn own_snapshot(node: Node, set: Seq<char>) -> Seq<Snapshot> {
    if node.kind == NodeKind::Workspace && node.name is Some && belongs(node.name->0@, set) {
        match snapshot_of(node) {
            Some(snapshot) => seq![snapshot],
            None => seq![],
        }
    } else {
        seq![]
    }
}

/// The snapshots of the workspaces of `set` in the tiled tree below a node.
pub open spec fn set_snapshots(node: Node, set: Seq<char>) -> Seq<Snapshot>
    decreases node,
{
    own_snapshot(node, set) + all_set_snapshots(node.nodes@, set)
}

/// The snapshots of the workspaces of `set` below each node.
pub open spec fn all_set_snapshots(nodes: Seq<Node>, set: Seq<char>) -> Seq<Snapshot>
    decreases nodes,
{
    if nodes.len() == 0 {
        seq![]
    } else {
        all_set_snapshots(nodes.drop_last(), set) + set_snapshots(nodes.last(), set)
    }
}

/// Whether the focus is on a node or below it.
pub open spec fn has_focus(node: Node) -> bool
    decreases node,
{
    node.focused || any_has_focus(node.nodes@) || any_has_focus(node.floating_nodes@)
}

/// Whether the focus is on or below one of the nodes.
pub open spec fn any_has_focus(nodes: Seq<Node>) -> bool
    decreases nodes,
{
    nodes.len() > 0 && (any_has_focus(nodes.drop_last()) || has_focus(nodes.last()))
}

/// The workspace that has the focus: one focused itself or below the node
/// comes before one that only contains the focus.
pub open spec fn focused_workspace(node: Node) -> Option<Node>
    decreases node,
{
    if node.kind == NodeKind::Workspace && node.focused {
        Some(node)
    } else {
        match first_focused_workspace(node.nodes@) {
            Some(found) => Some(found),
            None => if node.kind == NodeKind::Workspace && has_focus(node) {
                Some(node)
            } else {
                None
            },
        }
    }
}

/// The first workspace with the focus that is found below the nodes.
pub open spec fn first_focused_workspace(nodes: Seq<Node>) -> Option<Node>
    decreases nodes,
{
    if nodes.len() == 0 {
        None
    } else {
        match first_focused_workspace(nodes.drop_last()) {
            Some(found) => Some(found),
            None => focused_workspace(nodes.last()),
        }
    }
}

/// The focused window on or below a node, tiled before floating.
pub open spec fn focused_window(node: Node) -> Option<i64>
    decreases node,
{
    if node.focused && node.pid is Some {
        Some(node.id)
    } else {
        match first_focused_window(node.nodes@) {
            Some(id) => Some(id),
            None => first_focused_window(node.floating_nodes@),
        }
    }
}

/// The first focused window that is found on or below the nodes.
pub open spec fn first_focused_window(nodes: Seq<Node>) -> Option<i64>
    decreases nodes,
{
    if nodes.len() == 0 {
        None
    } else {
        match first_focused_window(nodes.drop_last()) {
            Some(id) => Some(id),
            None => focused_window(nodes.last()),
        }
    }
}

/// The workspace of a name, depth-first in the tiled tree.
pub open spec fn named_workspace(node: Node, name: Seq<char>) -> Option<Node>
    decreases node,
{
    if node.kind == NodeKind::Workspace && view_of(node.name) == Some(name) {
        Some(node)
    } else {
        first_named_workspace(node.nodes@, name)
    }
}

/// The first workspace of a name that is found on or below the nodes.
pub open spec fn first_named_workspace(nodes: Seq<Node>, name: Seq<char>) -> Option<Node>
    decreases nodes,
{
    if nodes.len() == 0 {
        None
    } else {
        match first_named_workspace(nodes.drop_last(), name) {
            Some(found) => Some(found),
            None => named_workspace(nodes.last(), name),
        }
    }
}

/// The first window depth-first in the tiled tree.
pub open spec fn tiled_window(node: Node) -> Option<i64>
    decreases node,
{
    if node.pid is Some {
        Some(node.id)
    } else {
        first_of_tiled(node.nodes@)
    }
}

/// The first window on or below the nodes, in the tiled tree.
pub open spec fn first_of_tiled(nodes: Seq<Node>) -> Option<i64>
    decreases nodes,
{
    if nodes.len() == 0 {
        None
    } else {
        match first_of_tiled(nodes.drop_last()) {
            Some(id) => Some(id),
            None => tiled_window(nodes.last()),
        }
    }
}

/// The windows on or below a node, tiled before floating.
pub open spec fn live_ids(node: Node) -> Seq<i64>
    decreases node,
{
    let own = if node.pid is Some {
        seq![node.id]
    } else {
        seq![]
    };
    own + all_live_ids(node.nodes@) + all_live_ids(node.floating_nodes@)
}

/// The windows on or below the nodes.
pub open spec fn all_live_ids(nodes: Seq<Node>) -> Seq<i64>
    decreases nodes,
{
    if nodes.len() == 0 {
        seq![]
    } else {
        all_live_ids(nodes.drop_last()) + live_ids(nodes.last())
    }
}

/// The name of a layout.
pub fn layout_to_string(layout: Layout) -> (r: String)
    ensures
        r@ == layout_name(layout),
{
    match layout {
        Layout::SplitH => "splith".to_owned(),
        Layout::SplitV => "splitv".to_owned(),
        Layout::Tabbed => "tabbed".to_owned(),
        Layout::Stacked => "stacking".to_owned(),
        Layout::Other => "splith".to_owned(),
    }
}

/// Extract tree structure from a sway node, preserving hierarchy
pub fn extract_tree(node: &Node, floating: bool) -> (r: Option<TreeNode>)
    ensures
        match r {
            Some(tree) => extracted(*node, floating) == Some(tree@),
            None => extracted(*node, floating) is None,
        },
    decreases node,
{
    if node.kind != NodeKind::Con && node.kind != NodeKind::FloatingCon {
        return None;
    }
    // Sway reports a floating window as a floating container of its own.
    if node.pid.is_some() {
        return Some(
            TreeNode::Window {
                con_id: node.id,
                app_id: node.app_id.clone(),
                name: node.name.clone(),
                floating,
            },
        );
    }
    let mut children = extract_all(&node.nodes, false);
    let ghost all = children@;
    let single = children.len() == 1 && matches!(&children[0], TreeNode::Window { .. });
    if children.len() == 0 {
        None
    } else if single {
        assert(trees(all)[0] == all[0]@);
        children.pop()
    } else {
        assert(trees(all).len() == 1 ==> trees(all)[0] == all[0]@);
        let tree = TreeNode::Container { layout: layout_to_string(node.layout), children };
        assert(tree@->children =~= trees(all));
        Some(tree)
    }
}

/// Extracts each of the nodes.
fn extract_all(nodes: &Vec<Node>, floating: bool) -> (r: Vec<TreeNode>)
    ensures
        trees(r@) == all_extracted(nodes@, floating),
    decreases nodes,
{
    let mut out: Vec<TreeNode> = Vec::new();
    let mut i: usize = 0;
    while i < nodes.len()
        invariant
            i <= nodes@.len(),
            trees(out@) == all_extracted(nodes@.take(i as int), floating),
        decreases nodes.len() - i,
    {
        assert(nodes@.take(i + 1).drop_last() == nodes@.take(i as int));
        let ghost before = trees(out@);
        if let Some(tree) = extract_tree(&nodes[i], floating) {
            out.push(tree);
            assert(trees(out@) == before.push(tree@));
        }
        i += 1;
    }
    assert(nodes@.take(i as int) == nodes@);
    out
}

/// Snapshot a workspace node's contents, or None if it holds no windows.
pub fn snapshot_workspace(node: &Node) -> (r: Option<WorkspaceSnapshot>)
    ensures
        match r {
            Some(snapshot) => snapshot_of(*node) == Some(snapshot@),
            None => snapshot_of(*node) is None,
        },
{
    let mut tree = extract_all(&node.nodes, false);
    let mut floating = extract_all(&node.floating_nodes, true);
    let ghost tiled = tree@;
    let ghost above = floating@;
    tree.append(&mut floating);
    assert(trees(tree@) == trees(tiled) + trees(above));
    if tree.len() == 0 {
        assert(trees(tree@).len() == 0);
        return None;
    }
    let name = match &node.name {
        Some(name) => name.clone(),
        None => String::new(),
    };
    assert(trees(tree@).len() > 0);
    Some(WorkspaceSnapshot { name, layout: layout_to_string(node.layout), tree })
}

/// Adds the snapshots of the workspaces of a set on or below a node.
pub fn find_workspaces(node: &Node, set_name: &str, snapshots: &mut Vec<WorkspaceSnapshot>)
    ensures
        shots(final(snapshots)@) == shots(old(snapshots)@) + set_snapshots(*node, set_name@),
    decreases node,
{
    let ghost before = shots(snapshots@);
    if node.kind == NodeKind::Workspace {
        if let Some(name) = &node.name {
            if workspace_belongs_to_set(name.as_str(), set_name) {
                if let Some(snapshot) = snapshot_workspace(node) {
                    snapshots.push(snapshot);
                    assert(shots(snapshots@) == before.push(snapshot@));
                }
            }
        }
    }
    let ghost own = own_snapshot(*node, set_name@);
    assert(shots(snapshots@) == before + own);
    let mut i: usize = 0;
    while i < node.nodes.len()
        invariant
            i <= node.nodes@.len(),
            shots(snapshots@) == before + own + all_set_snapshots(
                node.nodes@.take(i as int),
                set_name@,
            ),
        decreases node.nodes.len() - i,
    {
        assert(node.nodes@.take(i + 1).drop_last() == node.nodes@.take(i as int));
        find_workspaces(&node.nodes[i], set_name, snapshots);
        assert(shots(snapshots@) == before + own + all_set_snapshots(
            node.nodes@.take(i + 1),
            set_name@,
        ));
        i += 1;
    }
    assert(node.nodes@.take(i as int) == node.nodes@);
    assert(shots(snapshots@) == before + set_snapshots(*node, set_name@));
}

/// Find the focused workspace node
pub fn find_focused_workspace(node: &Node) -> (r: Option<&Node>)
    ensures
        match r {
            Some(found) => focused_workspace(*node) == Some(*found),
            None => focused_workspace(*node) is None,
        },
    decreases node,
{
    if node.kind == NodeKind::Workspace && node.focused {
        return Some(node);
    }
    let mut i: usize = 0;
    while i < node.nodes.len()
        invariant
            i <= node.nodes@.len(),
            first_focused_workspace(node.nodes@.take(i as int)) is None,
            !(node.kind == NodeKind::Workspace && node.focused),
        decreases node.nodes.len() - i,
    {
        assert(node.nodes@.take(i + 1).drop_last() == node.nodes@.take(i as int));
        if let Some(found) = find_focused_workspace(&node.nodes[i]) {
            proof {
                lemma_focused_workspace_stays(node.nodes@, i + 1);
            }
            return Some(found);
        }
        i += 1;
    }
    assert(node.nodes@.take(i as int) == node.nodes@);
    if node.kind == NodeKind::Workspace && has_focused_descendant(node) {
        return Some(node);
    }
    None
}

proof fn lemma_focused_workspace_stays(nodes: Seq<Node>, n: int)
    requires
        0 <= n <= nodes.len(),
        first_focused_workspace(nodes.take(n)) is Some,
    ensures
        first_focused_workspace(nodes) == first_focused_workspace(nodes.take(n)),
    decreases nodes.len(),
{
    if n == nodes.len() {
        assert(nodes.take(n) == nodes);
    } else {
        assert(nodes.drop_last().take(n) == nodes.take(n));
        lemma_focused_workspace_stays(nodes.drop_last(), n);
    }
}

/// Whether the focus is on a node or below it.
pub fn has_focused_descendant(node: &Node) -> (r: bool)
    ensures
        r == has_focus(*node),
    decreases node,
{
    node.focused || has_focus_among(&node.nodes) || has_focus_among(&node.floating_nodes)
}

/// Whether the focus is on or below one of the nodes.
fn has_focus_among(nodes: &Vec<Node>) -> (r: bool)
    ensures
        r == any_has_focus(nodes@),
    decreases nodes,
{
    let mut i: usize = 0;
    while i < nodes.len()
        invariant
            i <= nodes@.len(),
            !any_has_focus(nodes@.take(i as int)),
        decreases nodes.len() - i,
    {
        assert(nodes@.take(i + 1).drop_last() == nodes@.take(i as int));
        if has_focused_descendant(&nodes[i]) {
            proof {
                lemma_focus_stays(nodes@, i + 1);
            }
            return true;
        }
        i += 1;
    }
    assert(nodes@.take(i as int) == nodes@);
    false
}

proof fn lemma_focus_stays(nodes: Seq<Node>, n: int)
    requires
        0 <= n <= nodes.len(),
        any_has_focus(nodes.take(n)),
    ensures
        any_has_focus(nodes),
    decreases nodes.len(),
{
    if n == nodes.len() {
        assert(nodes.take(n) == nodes);
    } else {
        assert(nodes.drop_last().take(n) == nodes.take(n));
        lemma_focus_stays(nodes.drop_last(), n);
    }
}

/// The focused window, skipping the containers and workspace above it.
pub fn focused_window_id(node: &Node) -> (r: Option<i64>)
    ensures
        r == focused_window(*node),
    decreases node,
{
    if node.focused && node.pid.is_some() {
        return Some(node.id);
    }
    match focused_window_among(&node.nodes) {
        Some(id) => Some(id),
        None => focused_window_among(&node.floating_nodes),
    }
}

/// The first focused window on or below the nodes.
fn focused_window_among(nodes: &Vec<Node>) -> (r: Option<i64>)
    ensures
        r == first_focused_window(nodes@),
    decreases nodes,
{
    let mut i: usize = 0;
    while i < nodes.len()
        invariant
            i <= nodes@.len(),
            first_focused_window(nodes@.take(i as int)) is None,
        decreases nodes.len() - i,
    {
        assert(nodes@.take(i + 1).drop_last() == nodes@.take(i as int));
        if let Some(id) = focused_window_id(&nodes[i]) {
            proof {
                lemma_focused_window_stays(nodes@, i + 1);
            }
            return Some(id);
        }
        i += 1;
    }
    assert(nodes@.take(i as int) == nodes@);
    None
}

proof fn lemma_focused_window_stays(nodes: Seq<Node>, n: int)
    requires
        0 <= n <= nodes.len(),
        first_focused_window(nodes.take(n)) is Some,
    ensures
        first_focused_window(nodes) == first_focused_window(nodes.take(n)),
    decreases nodes.len(),
{
    if n == nodes.len() {
        assert(nodes.take(n) == nodes);
    } else {
        assert(nodes.drop_last().take(n) == nodes.take(n));
        lemma_focused_window_stays(nodes.drop_last(), n);
    }
}

/// Find the workspace of a name
pub fn find_workspace<'a>(node: &'a Node, name: &str) -> (r: Option<&'a Node>)
    ensures
        match r {
            Some(found) => named_workspace(*node, name@) == Some(*found),
            None => named_workspace(*node, name@) is None,
        },
    decreases node,
{
    if node.kind == NodeKind::Workspace {
        if let Some(own) = &node.name {
            if same_text(own.as_str(), name) {
                return Some(node);
            }
        }
    }
    let mut i: usize = 0;
    while i < node.nodes.len()
        invariant
            i <= node.nodes@.len(),
            first_named_workspace(node.nodes@.take(i as int), name@) is None,
            !(node.kind == NodeKind::Workspace && view_of(node.name) == Some(name@)),
        decreases node.nodes.len() - i,
    {
        assert(node.nodes@.take(i + 1).drop_last() == node.nodes@.take(i as int));
        if let Some(found) = find_workspace(&node.nodes[i], name) {
            proof {
                lemma_named_workspace_stays(node.nodes@, name@, i + 1);
            }
            return Some(found);
        }
        i += 1;
    }
    assert(node.nodes@.take(i as int) == node.nodes@);
    None
}

proof fn lemma_named_workspace_stays(nodes: Seq<Node>, name: Seq<char>, n: int)
    requires
        0 <= n <= nodes.len(),
        first_named_workspace(nodes.take(n), name) is Some,
    ensures
        first_named_workspace(nodes, name) == first_named_workspace(nodes.take(n), name),
    decreases nodes.len(),
{
    if n == nodes.len() {
        assert(nodes.take(n) == nodes);
    } else {
        assert(nodes.drop_last().take(n) == nodes.take(n));
        lemma_named_workspace_stays(nodes.drop_last(), name, n);
    }
}

/// The window in the top-left slot: sway keeps the tiling tree in layout
/// order, so it is the first leaf reached depth-first.
pub fn first_tiled_window(node: &Node) -> (r: Option<i64>)
    ensures
        r == tiled_window(*node),
    decreases node,
{
    if node.pid.is_some() {
        return Some(node.id);
    }
    let mut i: usize = 0;
    while i < node.nodes.len()
        invariant
            i <= node.nodes@.len(),
            node.pid is None,
            first_of_tiled(node.nodes@.take(i as int)) is None,
        decreases node.nodes.len() - i,
    {
        assert(node.nodes@.take(i + 1).drop_last() == node.nodes@.take(i as int));
        if let Some(id) = first_tiled_window(&node.nodes[i]) {
            proof {
                lemma_tiled_window_stays(node.nodes@, i + 1);
            }
            return Some(id);
        }
        i += 1;
    }
    assert(node.nodes@.take(i as int) == node.nodes@);
    None
}

proof fn lemma_tiled_window_stays(nodes: Seq<Node>, n: int)
    requires
        0 <= n <= nodes.len(),
        first_of_tiled(nodes.take(n)) is Some,
    ensures
        first_of_tiled(nodes) == first_of_tiled(nodes.take(n)),
    decreases nodes.len(),
{
    if n == nodes.len() {
        assert(nodes.take(n) == nodes);
    } else {
        assert(nodes.drop_last().take(n) == nodes.take(n));
        lemma_tiled_window_stays(nodes.drop_last(), n);
    }
}

/// The windows on or below a node.
pub fn all_window_ids(node: &Node) -> (r: Vec<i64>)
    ensures
        r@ == live_ids(*node),
    decreases node,
{
    let mut ids: Vec<i64> = Vec::new();
    if node.pid.is_some() {
        ids.push(node.id);
    }
    let mut tiled = all_window_ids_among(&node.nodes);
    let mut floating = all_window_ids_among(&node.floating_nodes);
    ids.append(&mut tiled);
    ids.append(&mut floating);
    ids
}

/// The windows on or below the nodes.
fn all_window_ids_among(nodes: &Vec<Node>) -> (r: Vec<i64>)
    ensures
        r@ == all_live_ids(nodes@),
    decreases nodes,
{
    let mut ids: Vec<i64> = Vec::new();
    let mut i: usize = 0;
    while i < nodes.len()
        invariant
            i <= nodes@.len(),
            ids@ == all_live_ids(nodes@.take(i as int)),
        decreases nodes.len() - i,
    {
        assert(nodes@.take(i + 1).drop_last() == nodes@.take(i as int));
        let mut inner = all_window_ids(&nodes[i]);
        ids.append(&mut inner);
        i += 1;
    }
    assert(nodes@.take(i as int) == nodes@);
    ids
}

/// What is saved of a node holds a window, has no empty container, and holds
/// windows of the node alone.
pub proof fn law_extracted_tree_holds_live_windows(node: Node, floating: bool)
    ensures
        match extracted(node, floating) {
            Some(tree) => {
                &&& solid(tree)
                &&& window_ids(tree).len() > 0
                &&& forall|id: i64| #[trigger]
                    window_ids(tree).contains(id) ==> live_ids(node).contains(id)
            },
            None => true,
        },
    decreases node,
{
    if let Some(tree) = extracted(node, floating) {
        let own = if node.pid is Some {
            seq![node.id]
        } else {
            seq![]
        };
        let tiled = all_live_ids(node.nodes@);
        let above = all_live_ids(node.floating_nodes@);
        assert(live_ids(node) == own + tiled + above);
        if node.pid is Some {
            assert(window_ids(tree) == seq![node.id]);
            assert(live_ids(node)[0] == node.id);
        } else {
            let children = all_extracted(node.nodes@, false);
            lemma_all_extracted_live(node.nodes@, false);
            if children.len() == 1 && children[0] is Window {
                assert(children.drop_last() == Seq::<Tree>::empty());
                assert(all_ids(Seq::<Tree>::empty()) == Seq::<i64>::empty());
                assert(all_ids(children) == window_ids(children[0]));
            } else {
                assert(window_ids(tree) == all_ids(children));
            }
            law_solid_tree_holds_a_window(tree);
            assert forall|id: i64| #[trigger] window_ids(tree).contains(id) implies live_ids(
                node,
            ).contains(id) by {
                assert(tiled.contains(id));
                let i = tiled.index_of(id);
                assert(live_ids(node)[own.len() + i] == id);
            }
        }
    }
}

proof fn lemma_all_extracted_live(nodes: Seq<Node>, floating: bool)
    ensures
        all_solid(all_extracted(nodes, floating)),
        forall|id: i64| #[trigger]
            all_ids(all_extracted(nodes, floating)).contains(id) ==> all_live_ids(nodes).contains(
                id,
            ),
    decreases nodes,
{
    if nodes.len() > 0 {
        lemma_all_extracted_live(nodes.drop_last(), floating);
        law_extracted_tree_holds_live_windows(nodes.last(), floating);
        let front = all_extracted(nodes.drop_last(), floating);
        let all = all_extracted(nodes, floating);
        if let Some(tree) = extracted(nodes.last(), floating) {
            assert(all.drop_last() == front);
            assert(all_ids(all) == all_ids(front) + window_ids(tree));
        }
        let a = all_live_ids(nodes.drop_last());
        let b = live_ids(nodes.last());
        assert forall|id: i64| #[trigger] all_ids(all).contains(id) implies all_live_ids(
            nodes,
        ).contains(id) by {
            if all_ids(front).contains(id) {
                assert(a.contains(id));
                assert((a + b)[a.index_of(id)] == id);
            } else {
                let tree = extracted(nodes.last(), floating)->0;
                let i = all_ids(all).index_of(id);
                assert(i >= all_ids(front).len());
                assert(window_ids(tree)[i - all_ids(front).len()] == id);
                assert(window_ids(tree).contains(id));
                assert(b.contains(id));
                assert((a + b)[a.len() + b.index_of(id)] == id);
            }
        }
    }
}

/// A workspace has a snapshot exactly when something is saved of it, and the
/// snapshot then holds a window.
pub proof fn law_snapshot_holds_a_window(node: Node)
    ensures
        match snapshot_of(node) {
            Some(snapshot) => all_ids(snapshot.tree).len() > 0 && all_solid(snapshot.tree),
            None => all_ids(workspace_trees(node)).len() == 0,
        },
{
    lemma_all_extracted_live(node.nodes@, false);
    lemma_all_extracted_live(node.floating_nodes@, true);
    lemma_all_solid_concat(
        all_extracted(node.nodes@, false),
        all_extracted(node.floating_nodes@, true),
    );
    let all = workspace_trees(node);
    if all.len() > 0 {
        law_solid_tree_holds_a_window(all.last());
    }
}

/// The snapshots of a set are of workspaces that belong to it, and none is
/// empty.
pub proof fn law_set_snapshots_belong_to_the_set(node: Node, set: Seq<char>, i: int)
    requires
        0 <= i < set_snapshots(node, set).len(),
    ensures
        belongs(set_snapshots(node, set)[i].name, set),
        set_snapshots(node, set)[i].tree.len() > 0,
    decreases node,
{
    let own = own_snapshot(node, set);
    if i >= own.len() {
        lemma_all_set_snapshots_belong(node.nodes@, set, i - own.len());
    }
}

proof fn lemma_all_set_snapshots_belong(nodes: Seq<Node>, set: Seq<char>, i: int)
    requires
        0 <= i < all_set_snapshots(nodes, set).len(),
    ensures
        belongs(all_set_snapshots(nodes, set)[i].name, set),
        all_set_snapshots(nodes, set)[i].tree.len() > 0,
    decreases nodes,
{
    let front = all_set_snapshots(nodes.drop_last(), set);
    if i < front.len() {
        lemma_all_set_snapshots_belong(nodes.drop_last(), set, i);
    } else {
        law_set_snapshots_belong_to_the_set(nodes.last(), set, i - front.len());
    }
}

/// The focused workspace is a workspace with the focus on it or below it.
pub proof fn law_focused_workspace_has_the_focus(node: Node)
    ensures
        match focused_workspace(node) {
            Some(found) => found.kind == NodeKind::Workspace && has_focus(found),
            None => !(node.kind == NodeKind::Workspace && has_focus(node)),
        },
    decreases node,
{
    lemma_first_focused_workspace(node.nodes@);
}

proof fn lemma_first_focused_workspace(nodes: Seq<Node>)
    ensures
        match first_focused_workspace(nodes) {
            Some(found) => found.kind == NodeKind::Workspace && has_focus(found),
            None => true,
        },
    decreases nodes,
{
    if nodes.len() > 0 {
        lemma_first_focused_workspace(nodes.drop_last());
        law_focused_workspace_has_the_focus(nodes.last());
    }
}

/// The focused window and the window in the top-left slot are live.
pub proof fn law_found_windows_are_live(node: Node)
    ensures
        match focused_window(node) {
            Some(id) => live_ids(node).contains(id),
            None => true,
        },
        match tiled_window(node) {
            Some(id) => live_ids(node).contains(id),
            None => true,
        },
    decreases node,
{
    lemma_found_among(node.nodes@);
    lemma_found_among(node.floating_nodes@);
    let own = if node.pid is Some {
        seq![node.id]
    } else {
        seq![]
    };
    let tiled = all_live_ids(node.nodes@);
    let above = all_live_ids(node.floating_nodes@);
    let all = live_ids(node);
    assert(all == own + tiled + above);
    assert forall|id: i64| tiled.contains(id) implies all.contains(id) by {
        assert(all[own.len() + tiled.index_of(id)] == id);
    }
    assert forall|id: i64| above.contains(id) implies all.contains(id) by {
        assert(all[own.len() + tiled.len() + above.index_of(id)] == id);
    }
    if node.pid is Some {
        assert(all[0] == node.id);
    }
}

proof fn lemma_found_among(nodes: Seq<Node>)
    ensures
        match first_focused_window(nodes) {
            Some(id) => all_live_ids(nodes).contains(id),
            None => true,
        },
        match first_of_tiled(nodes) {
            Some(id) => all_live_ids(nodes).contains(id),
            None => true,
        },
    decreases nodes,
{
    if nodes.len() > 0 {
        lemma_found_among(nodes.drop_last());
        law_found_windows_are_live(nodes.last());
        let a = all_live_ids(nodes.drop_last());
        let b = live_ids(nodes.last());
        assert(all_live_ids(nodes) == a + b);
        assert forall|id: i64| a.contains(id) implies (a + b).contains(id) by {
            assert((a + b)[a.index_of(id)] == id);
        }
        assert forall|id: i64| b.contains(id) implies (a + b).contains(id) by {
            assert((a + b)[a.len() + b.index_of(id)] == id);
        }
    }
}

/// The workspace found by a name is a workspace of that name.
pub proof fn law_found_workspace_has_the_name(node: Node, name: Seq<char>)
    ensures
        match named_workspace(node, name) {
            Some(found) => found.kind == NodeKind::Workspace && view_of(found.name) == Some(name),
            None => true,
        },
    decreases node,
{
    lemma_first_named_workspace(node.nodes@, name);
}

proof fn lemma_first_named_workspace(nodes: Seq<Node>, name: Seq<char>)
    ensures
        match first_named_workspace(nodes, name) {
            Some(found) => found.kind == NodeKind::Workspace && view_of(found.name) == Some(name),
            None => true,
        },
    decreases nodes,
{
    if nodes.len() > 0 {
        lemma_first_named_workspace(nodes.drop_last(), name);
        law_found_workspace_has_the_name(nodes.last(), name);
    }
}

/// Whether a node stands in the tiled tree below another, or is it.
pub open spec fn within(tree: Node, node: Node) -> bool
    decreases tree,
{
    tree == node || within_any(tree.nodes@, node)
}

/// Whether a node stands in the tiled tree below one of others, or is it.
pub open spec fn within_any(trees: Seq<Node>, node: Node) -> bool
    decreases trees,
{
    trees.len() > 0 && (within_any(trees.drop_last(), node) || within(trees.last(), node))
}

/// Every workspace of a set is found, wherever it stands in the tiled tree.
pub proof fn law_every_workspace_of_the_set_is_found(tree: Node, node: Node, set: Seq<char>)
    requires
        within(tree, node),
        node.kind == NodeKind::Workspace,
        node.name is Some,
        belongs(node.name->0@, set),
    ensures
        match snapshot_of(node) {
            Some(snapshot) => set_snapshots(tree, set).contains(snapshot),
            None => true,
        },
    decreases tree,
{
    if let Some(snapshot) = snapshot_of(node) {
        let own = own_snapshot(tree, set);
        let below = all_set_snapshots(tree.nodes@, set);
        if tree == node {
            assert(set_snapshots(tree, set)[0] == snapshot);
        } else {
            lemma_found_within_any(tree.nodes@, node, set);
            let i = below.index_of(snapshot);
            assert(set_snapshots(tree, set)[own.len() + i] == snapshot);
        }
    }
}

proof fn lemma_found_within_any(trees: Seq<Node>, node: Node, set: Seq<char>)
    requires
        within_any(trees, node),
        node.kind == NodeKind::Workspace,
        node.name is Some,
        belongs(node.name->0@, set),
        snapshot_of(node) is Some,
    ensures
        all_set_snapshots(trees, set).contains(snapshot_of(node)->0),
    decreases trees,
{
    let snapshot = snapshot_of(node)->0;
    let front = all_set_snapshots(trees.drop_last(), set);
    let last = set_snapshots(trees.last(), set);
    if within(trees.last(), node) {
        law_every_workspace_of_the_set_is_found(trees.last(), node, set);
        let i = last.index_of(snapshot);
        assert(all_set_snapshots(trees, set)[front.len() + i] == snapshot);
    } else {
        lemma_found_within_any(trees.drop_last(), node, set);
        let i = front.index_of(snapshot);
        assert(all_set_snapshots(trees, set)[i] == snapshot);
    }
}

/// Whether a node is a window with nothing below it, or a container of such
/// nodes, with nothing floating inside.
pub open spec fn ordinary(node: Node) -> bool
    decreases node,
{
    &&& node.kind == NodeKind::Con || node.kind == NodeKind::FloatingCon
    &&& node.pid is Some ==> node.nodes@.len() == 0
    &&& node.floating_nodes@.len() == 0
    &&& all_ordinary(node.nodes@)
}

/// Whether each node is such a node.
pub open spec fn all_ordinary(nodes: Seq<Node>) -> bool
    decreases nodes,
{
    nodes.len() > 0 ==> all_ordinary(nodes.drop_last()) && ordinary(nodes.last())
}

/// Every window of a workspace, tiled or floating, is saved, once and in its
/// order, and there is a snapshot exactly where the workspace holds a window;
/// as long as windows have nothing below them and containers nothing floating
/// inside.
pub proof fn law_every_ordinary_window_is_saved(node: Node)
    requires
        node.pid is None,
        all_ordinary(node.nodes@),
        all_ordinary(node.floating_nodes@),
    ensures
        all_ids(workspace_trees(node)) == live_ids(node),
        snapshot_of(node) is Some <==> live_ids(node).len() > 0,
{
    law_snapshot_holds_a_window(node);
    lemma_all_ordinary_saved(node.nodes@, false);
    lemma_all_ordinary_saved(node.floating_nodes@, true);
    lemma_all_ids_concat(
        all_extracted(node.nodes@, false),
        all_extracted(node.floating_nodes@, true),
    );
    assert(live_ids(node) == all_live_ids(node.nodes@) + all_live_ids(node.floating_nodes@));
}

proof fn lemma_ordinary_saved(node: Node, floating: bool)
    requires
        ordinary(node),
    ensures
        match extracted(node, floating) {
            Some(tree) => window_ids(tree) == live_ids(node),
            None => live_ids(node).len() == 0,
        },
    decreases node,
{
    assert(all_live_ids(node.floating_nodes@) == Seq::<i64>::empty());
    if node.pid is Some {
        assert(all_live_ids(node.nodes@) == Seq::<i64>::empty());
        assert(live_ids(node) == seq![node.id]);
    } else {
        let children = all_extracted(node.nodes@, false);
        lemma_all_ordinary_saved(node.nodes@, false);
        assert(live_ids(node) == all_live_ids(node.nodes@));
        if children.len() == 1 {
            assert(children.drop_last() == Seq::<Tree>::empty());
            assert(all_ids(children.drop_last()) == Seq::<i64>::empty());
            assert(all_ids(children) == window_ids(children[0]));
        }
    }
}

proof fn lemma_all_ordinary_saved(nodes: Seq<Node>, floating: bool)
    requires
        all_ordinary(nodes),
    ensures
        all_ids(all_extracted(nodes, floating)) == all_live_ids(nodes),
    decreases nodes,
{
    if nodes.len() > 0 {
        let front = all_extracted(nodes.drop_last(), floating);
        lemma_all_ordinary_saved(nodes.drop_last(), floating);
        lemma_ordinary_saved(nodes.last(), floating);
        if let Some(tree) = extracted(nodes.last(), floating) {
            assert(front.push(tree).drop_last() == front);
        }
    }
}

/// Whether a node stands anywhere in a tree, tiled or floating, or is it.
pub open spec fn inside(tree: Node, node: Node) -> bool
    decreases tree,
{
    tree == node || inside_any(tree.nodes@, node) || inside_any(tree.floating_nodes@, node)
}

/// Whether a node stands anywhere in one of the trees, or is one.
pub open spec fn inside_any(trees: Seq<Node>, node: Node) -> bool
    decreases trees,
{
    trees.len() > 0 && (inside_any(trees.drop_last(), node) || inside(trees.last(), node))
}

/// Whether a node is a window.
pub open spec fn is_window(node: Node) -> bool {
    node.pid is Some
}

/// A window is live exactly where it stands in the tree.
pub proof fn law_live_windows_are_those_in_the_tree(tree: Node, id: i64)
    ensures
        live_ids(tree).contains(id) <==> exists|node: Node| #[trigger]
            inside(tree, node) && is_window(node) && node.id == id,
    decreases tree,
{
    lemma_live_in_any(tree.nodes@, id);
    lemma_live_in_any(tree.floating_nodes@, id);
    let own = if tree.pid is Some {
        seq![tree.id]
    } else {
        seq![]
    };
    let tiled = all_live_ids(tree.nodes@);
    let above = all_live_ids(tree.floating_nodes@);
    lemma_either_contains(own, tiled, id);
    lemma_either_contains(own + tiled, above, id);
    assert(inside(tree, tree));
    if own.contains(id) {
        assert(id == tree.id);
    }
    if tree.pid is Some {
        assert(own[0] == tree.id);
    }
    if tiled.contains(id) {
        let node = choose|node: Node| #[trigger]
            inside_any(tree.nodes@, node) && is_window(node) && node.id == id;
        assert(inside(tree, node));
    }
    if above.contains(id) {
        let node = choose|node: Node| #[trigger]
            inside_any(tree.floating_nodes@, node) && is_window(node) && node.id == id;
        assert(inside(tree, node));
    }
    assert forall|node: Node| #[trigger]
        inside(tree, node) && is_window(node) && node.id == id implies live_ids(tree).contains(
        id,
    ) by {
        assert(tree == node || inside_any(tree.nodes@, node) || inside_any(
            tree.floating_nodes@,
            node,
        ));
    }
}

proof fn lemma_either_contains(a: Seq<i64>, b: Seq<i64>, id: i64)
    ensures
        (a + b).contains(id) <==> a.contains(id) || b.contains(id),
{
    if a.contains(id) {
        assert((a + b)[a.index_of(id)] == id);
    }
    if b.contains(id) {
        assert((a + b)[a.len() + b.index_of(id)] == id);
    }
    if (a + b).contains(id) {
        let i = (a + b).index_of(id);
        if i < a.len() {
            assert(a[i] == id);
        } else {
            assert(b[i - a.len()] == id);
        }
    }
}

proof fn lemma_live_in_any(trees: Seq<Node>, id: i64)
    ensures
        all_live_ids(trees).contains(id) <==> exists|node: Node| #[trigger]
            inside_any(trees, node) && is_window(node) && node.id == id,
    decreases trees,
{
    if trees.len() > 0 {
        let front = trees.drop_last();
        lemma_live_in_any(front, id);
        law_live_windows_are_those_in_the_tree(trees.last(), id);
        lemma_either_contains(all_live_ids(front), live_ids(trees.last()), id);
        if all_live_ids(front).contains(id) {
            let node = choose|node: Node| #[trigger]
                inside_any(front, node) && is_window(node) && node.id == id;
            assert(inside_any(trees, node));
        }
        if live_ids(trees.last()).contains(id) {
            let node = choose|node: Node| #[trigger]
                inside(trees.last(), node) && is_window(node) && node.id == id;
            assert(inside_any(trees, node));
        }
        assert forall|node: Node| #[trigger]
            inside_any(trees, node) && is_window(node) && node.id == id implies all_live_ids(
            trees,
        ).contains(id) by {
            assert(inside_any(front, node) || inside(trees.last(), node));
        }
    }
}

/// The focused window is a focused window of the tree, and is found wherever it
/// stands.
pub proof fn law_focused_window_is_found_wherever_it_stands(tree: Node)
    ensures
        match focused_window(tree) {
            Some(id) => exists|node: Node| #[trigger]
                inside(tree, node) && is_window(node) && node.focused && node.id == id,
            None => forall|node: Node| #[trigger]
                inside(tree, node) && is_window(node) ==> !node.focused,
        },
    decreases tree,
{
    lemma_focused_window_in_any(tree.nodes@);
    lemma_focused_window_in_any(tree.floating_nodes@);
    assert(inside(tree, tree));
    if !(tree.focused && tree.pid is Some) {
        match (first_focused_window(tree.nodes@), first_focused_window(tree.floating_nodes@)) {
            (Some(id), _) => {
                let node = choose|node: Node| #[trigger]
                    inside_any(tree.nodes@, node) && is_window(node) && node.focused && node.id
                        == id;
                assert(inside(tree, node));
            },
            (None, Some(id)) => {
                let node = choose|node: Node| #[trigger]
                    inside_any(tree.floating_nodes@, node) && is_window(node) && node.focused
                        && node.id == id;
                assert(inside(tree, node));
            },
            (None, None) => {
                assert forall|node: Node| #[trigger]
                    inside(tree, node) && is_window(node) implies !node.focused by {
                    assert(tree == node || inside_any(tree.nodes@, node) || inside_any(
            tree.floating_nodes@,
            node,
        ));
                }
            },
        }
    }
}

proof fn lemma_focused_window_in_any(trees: Seq<Node>)
    ensures
        match first_focused_window(trees) {
            Some(id) => exists|node: Node| #[trigger]
                inside_any(trees, node) && is_window(node) && node.focused && node.id == id,
            None => forall|node: Node| #[trigger]
                inside_any(trees, node) && is_window(node) ==> !node.focused,
        },
    decreases trees,
{
    if trees.len() > 0 {
        let front = trees.drop_last();
        lemma_focused_window_in_any(front);
        law_focused_window_is_found_wherever_it_stands(trees.last());
        match (first_focused_window(front), focused_window(trees.last())) {
            (Some(id), _) => {
                let node = choose|node: Node| #[trigger]
                    inside_any(front, node) && is_window(node) && node.focused && node.id == id;
                assert(inside_any(trees, node));
            },
            (None, Some(id)) => {
                let node = choose|node: Node| #[trigger]
                    inside(trees.last(), node) && is_window(node) && node.focused && node.id == id;
                assert(inside_any(trees, node));
            },
            (None, None) => {
                assert forall|node: Node| #[trigger]
                    inside_any(trees, node) && is_window(node) implies !node.focused by {
                    assert(inside_any(front, node) || inside(trees.last(), node));
                }
            },
        }
    }
}

/// A node has the focus exactly where a focused node stands in it.
pub proof fn law_focus_is_on_a_node_inside(tree: Node)
    ensures
        has_focus(tree) <==> exists|node: Node| #[trigger] inside(tree, node) && node.focused,
    decreases tree,
{
    lemma_focus_in_any(tree.nodes@);
    lemma_focus_in_any(tree.floating_nodes@);
    assert(inside(tree, tree));
    if any_has_focus(tree.nodes@) {
        let node = choose|node: Node| #[trigger] inside_any(tree.nodes@, node) && node.focused;
        assert(inside(tree, node));
    }
    if any_has_focus(tree.floating_nodes@) {
        let node = choose|node: Node| #[trigger]
            inside_any(tree.floating_nodes@, node) && node.focused;
        assert(inside(tree, node));
    }
    assert forall|node: Node| #[trigger] inside(tree, node) && node.focused implies has_focus(
        tree,
    ) by {
        assert(tree == node || inside_any(tree.nodes@, node) || inside_any(
            tree.floating_nodes@,
            node,
        ));
    }
}

proof fn lemma_focus_in_any(trees: Seq<Node>)
    ensures
        any_has_focus(trees) <==> exists|node: Node| #[trigger]
            inside_any(trees, node) && node.focused,
    decreases trees,
{
    if trees.len() > 0 {
        let front = trees.drop_last();
        lemma_focus_in_any(front);
        law_focus_is_on_a_node_inside(trees.last());
        if any_has_focus(front) {
            let node = choose|node: Node| #[trigger] inside_any(front, node) && node.focused;
            assert(inside_any(trees, node));
        }
        if has_focus(trees.last()) {
            let node = choose|node: Node| #[trigger] inside(trees.last(), node) && node.focused;
            assert(inside_any(trees, node));
        }
        assert forall|node: Node| #[trigger]
            inside_any(trees, node) && node.focused implies any_has_focus(trees) by {
            assert(inside_any(front, node) || inside(trees.last(), node));
        }
    }
}

/// Whether a node is a workspace with the focus.
pub open spec fn is_focused_workspace(node: Node) -> bool {
    node.kind == NodeKind::Workspace && has_focus(node)
}

/// The focused workspace is one of the tree with the focus, and is found
/// wherever it stands among what is tiled.
pub proof fn law_focused_workspace_is_found_wherever_it_stands(tree: Node)
    ensures
        match focused_workspace(tree) {
            Some(found) => within(tree, found) && is_focused_workspace(found),
            None => forall|node: Node| #[trigger]
                within(tree, node) ==> !is_focused_workspace(node),
        },
    decreases tree,
{
    lemma_focused_workspace_in_any(tree.nodes@);
    if focused_workspace(tree) is None {
        assert forall|node: Node| #[trigger] within(tree, node) implies !is_focused_workspace(
            node,
        ) by {
            assert(tree == node || within_any(tree.nodes@, node));
        }
    } else {
        assert(first_focused_workspace(tree.nodes@) is Some || focused_workspace(tree)
            == Some(tree));
    }
}

proof fn lemma_focused_workspace_in_any(trees: Seq<Node>)
    ensures
        match first_focused_workspace(trees) {
            Some(found) => within_any(trees, found) && is_focused_workspace(found),
            None => forall|node: Node| #[trigger]
                within_any(trees, node) ==> !is_focused_workspace(node),
        },
    decreases trees,
{
    if trees.len() > 0 {
        lemma_focused_workspace_in_any(trees.drop_last());
        law_focused_workspace_is_found_wherever_it_stands(trees.last());
        if first_focused_workspace(trees) is None {
            assert forall|node: Node| #[trigger] within_any(
                trees,
                node,
            ) implies !is_focused_workspace(node) by {
                assert(within_any(trees.drop_last(), node) || within(trees.last(), node));
            }
        } else {
            assert(first_focused_workspace(trees.drop_last()) is Some || focused_workspace(
                trees.last(),
            ) is Some);
        }
    }
}

/// A workspace is found by its name wherever it stands among what is tiled.
pub proof fn law_named_workspace_is_found_wherever_it_stands(tree: Node, name: Seq<char>)
    ensures
        match named_workspace(tree, name) {
            Some(found) => {
                &&& within(tree, found)
                &&& found.kind == NodeKind::Workspace
                &&& view_of(found.name) == Some(name)
            },
            None => forall|node: Node| #[trigger]
                within(tree, node) && node.kind == NodeKind::Workspace ==> view_of(node.name)
                    != Some(name),
        },
    decreases tree,
{
    lemma_named_workspace_in_any(tree.nodes@, name);
    if named_workspace(tree, name) is None {
        assert forall|node: Node| #[trigger]
            within(tree, node) && node.kind == NodeKind::Workspace implies view_of(node.name)
            != Some(name) by {
            assert(tree == node || within_any(tree.nodes@, node));
        }
    }
}

proof fn lemma_named_workspace_in_any(trees: Seq<Node>, name: Seq<char>)
    ensures
        match first_named_workspace(trees, name) {
            Some(found) => {
                &&& within_any(trees, found)
                &&& found.kind == NodeKind::Workspace
                &&& view_of(found.name) == Some(name)
            },
            None => forall|node: Node| #[trigger]
                within_any(trees, node) && node.kind == NodeKind::Workspace ==> view_of(node.name)
                    != Some(name),
        },
    decreases trees,
{
    if trees.len() > 0 {
        lemma_named_workspace_in_any(trees.drop_last(), name);
        law_named_workspace_is_found_wherever_it_stands(trees.last(), name);
        if first_named_workspace(trees, name) is None {
            assert forall|node: Node| #[trigger]
                within_any(trees, node) && node.kind == NodeKind::Workspace implies view_of(
                node.name,
            ) != Some(name) by {
                assert(within_any(trees.drop_last(), node) || within(trees.last(), node));
            }
        }
    }
}

/// The window in the top-left slot of a workspace is the first of its tiled
/// windows, as long as windows have nothing below them and containers nothing
/// floating inside.
pub proof fn law_window_in_the_top_left_slot_is_the_first(workspace: Node)
    requires
        workspace.pid is None,
        all_ordinary(workspace.nodes@),
    ensures
        ({
            let tiled = all_live_ids(workspace.nodes@);
            tiled_window(workspace) == if tiled.len() > 0 {
                Some(tiled[0])
            } else {
                None
            }
        }),
{
    lemma_first_of_tiled(workspace.nodes@);
}

proof fn lemma_first_of_tiled(nodes: Seq<Node>)
    requires
        all_ordinary(nodes),
    ensures
        first_of_tiled(nodes) == if all_live_ids(nodes).len() > 0 {
            Some(all_live_ids(nodes)[0])
        } else {
            None
        },
    decreases nodes,
{
    if nodes.len() > 0 {
        let last = nodes.last();
        lemma_first_of_tiled(nodes.drop_last());
        assert(ordinary(last));
        assert(all_live_ids(last.floating_nodes@) == Seq::<i64>::empty());
        if last.pid is None {
            lemma_first_of_tiled(last.nodes@);
            assert(live_ids(last) == all_live_ids(last.nodes@));
        } else {
            assert(live_ids(last)[0] == last.id);
        }
        assert(tiled_window(last) == if live_ids(last).len() > 0 {
            Some(live_ids(last)[0])
        } else {
            None
        });
        assert(all_live_ids(nodes) == all_live_ids(nodes.drop_last()) + live_ids(last));
    }
}

/// Whether a workspace of a set stands among what is tiled in a tree, and a
/// snapshot is its: with its name, its layout and what is saved of it.
pub open spec fn is_saved_of(tree: Node, node: Node, set: Seq<char>, snapshot: Snapshot) -> bool {
    &&& within(tree, node)
    &&& node.kind == NodeKind::Workspace
    &&& view_of(node.name) == Some(snapshot.name)
    &&& belongs(snapshot.name, set)
    &&& snapshot.layout == layout_name(node.layout)
    &&& snapshot.tree == all_extracted(node.nodes@, false) + all_extracted(
        node.floating_nodes@,
        true,
    )
}

/// Every snapshot of a set is that of a workspace of the set in the tree.
pub proof fn law_every_snapshot_is_of_a_workspace_of_the_set(
    tree: Node,
    set: Seq<char>,
    snapshot: Snapshot,
)
    requires
        set_snapshots(tree, set).contains(snapshot),
    ensures
        exists|node: Node| #[trigger] is_saved_of(tree, node, set, snapshot),
    decreases tree,
{
    let own = own_snapshot(tree, set);
    let i = set_snapshots(tree, set).index_of(snapshot);
    if i < own.len() {
        assert(is_saved_of(tree, tree, set, snapshot));
    } else {
        assert(all_set_snapshots(tree.nodes@, set)[i - own.len()] == snapshot);
        let node = lemma_snapshot_of_a_workspace(tree.nodes@, set, snapshot);
        assert(is_saved_of(tree, node, set, snapshot));
    }
}

proof fn lemma_snapshot_of_a_workspace(
    trees: Seq<Node>,
    set: Seq<char>,
    snapshot: Snapshot,
) -> (node: Node)
    requires
        all_set_snapshots(trees, set).contains(snapshot),
    ensures
        within_any(trees, node),
        is_saved_of(node, node, set, snapshot),
    decreases trees,
{
    let front = all_set_snapshots(trees.drop_last(), set);
    let last = set_snapshots(trees.last(), set);
    let i = all_set_snapshots(trees, set).index_of(snapshot);
    if i < front.len() {
        assert(front[i] == snapshot);
        lemma_snapshot_of_a_workspace(trees.drop_last(), set, snapshot)
    } else {
        assert(last[i - front.len()] == snapshot);
        law_every_snapshot_is_of_a_workspace_of_the_set(trees.last(), set, snapshot);
        choose|node: Node| #[trigger] is_saved_of(trees.last(), node, set, snapshot)
    }
}

/// Whether a node is a window that is saved so.
pub open spec fn is_saved_as(node: Node, window: Tree) -> bool {
    &&& is_window(node)
    &&& window matches Tree::Window { con_id, app_id, name, .. }
    &&& con_id == node.id
    &&& app_id == view_of(node.app_id)
    &&& name == view_of(node.name)
}

/// A window is saved as it is open: what is saved below any containers is a
/// window of the tree, with its number, its application and its title, and
/// floats only where it floats itself.
pub proof fn law_windows_are_saved_as_they_are_open(
    nodes: Seq<Node>,
    floating: bool,
    layouts: Seq<Seq<char>>,
    window: Tree,
)
    requires
        any_holds_below(all_extracted(nodes, floating), layouts, window),
    ensures
        exists|node: Node| #[trigger] within_any(nodes, node) && is_saved_as(node, window),
        window matches Tree::Window { floating: f, .. } && (f ==> floating),
{
    let node = lemma_saved_as_open(nodes, floating, layouts, window);
}

proof fn lemma_saved_as_open(
    nodes: Seq<Node>,
    floating: bool,
    layouts: Seq<Seq<char>>,
    window: Tree,
) -> (node: Node)
    requires
        any_holds_below(all_extracted(nodes, floating), layouts, window),
    ensures
        within_any(nodes, node),
        is_saved_as(node, window),
        window matches Tree::Window { floating: f, .. } && (f ==> floating),
    decreases nodes,
{
    let front = all_extracted(nodes.drop_last(), floating);
    let last = nodes.last();
    if any_holds_below(front, layouts, window) {
        lemma_saved_as_open(nodes.drop_last(), floating, layouts, window)
    } else {
        let tree = extracted(last, floating)->0;
        assert(front.push(tree).drop_last() == front);
        assert(extracted(last, floating) is Some);
        assert(holds_below(tree, layouts, window));
        if last.pid is Some {
            assert(within(last, last));
            last
        } else {
            let children = all_extracted(last.nodes@, false);
            let node = if children.len() == 1 && children[0] is Window {
                assert(children.last() == children[0]);
                assert(any_holds_below(children, layouts, window));
                lemma_saved_as_open(last.nodes@, false, layouts, window)
            } else {
                assert(any_holds_below(children, layouts.drop_first(), window));
                lemma_saved_as_open(last.nodes@, false, layouts.drop_first(), window)
            };
            assert(within(last, node));
            node
        }
    }
}

/// A window that stands in a workspace itself is saved there, as floating
/// exactly where it floats.
pub proof fn law_floating_windows_are_saved_as_floating(
    nodes: Seq<Node>,
    floating: bool,
    i: int,
)
    requires
        0 <= i < nodes.len(),
        nodes[i].kind == NodeKind::Con || nodes[i].kind == NodeKind::FloatingCon,
        is_window(nodes[i]),
    ensures
        all_extracted(nodes, floating).contains(
            Tree::Window {
                con_id: nodes[i].id,
                app_id: view_of(nodes[i].app_id),
                name: view_of(nodes[i].name),
                floating,
            },
        ),
    decreases nodes.len(),
{
    let trees = all_extracted(nodes, floating);
    let window = Tree::Window {
        con_id: nodes[i].id,
        app_id: view_of(nodes[i].app_id),
        name: view_of(nodes[i].name),
        floating,
    };
    if i == nodes.len() - 1 {
        assert(extracted(nodes.last(), floating) == Some(window));
        assert(trees.last() == window);
    } else {
        let front = all_extracted(nodes.drop_last(), floating);
        law_floating_windows_are_saved_as_floating(nodes.drop_last(), floating, i);
        assert(trees[front.index_of(window)] == window);
    }
}

/// A layout is saved by the name that sway's commands have for it.
pub proof fn law_saved_layout_is_one_of_sways(layout: Layout)
    ensures
        layout_name(layout) == match layout {
            Layout::SplitV => "splitv"@,
            Layout::Tabbed => "tabbed"@,
            Layout::Stacked => "stacking"@,
            _ => "splith"@,
        },
{
}

/// A container is saved with its layout and what is saved of its children, in
/// their order; one of which a single window is saved, as that window; and one
/// of which nothing is, not at all.
pub proof fn law_container_is_saved_with_what_it_holds(node: Node, floating: bool)
    requires
        node.kind == NodeKind::Con || node.kind == NodeKind::FloatingCon,
        !is_window(node),
    ensures
        ({
            let children = all_extracted(node.nodes@, false);
            match extracted(node, floating) {
                Some(Tree::Container { layout, children: held }) => {
                    &&& held == children
                    &&& held.len() > 1 || (held.len() == 1 && held[0] is Container)
                    &&& layout == match node.layout {
                        Layout::SplitV => "splitv"@,
                        Layout::Tabbed => "tabbed"@,
                        Layout::Stacked => "stacking"@,
                        _ => "splith"@,
                    }
                },
                Some(window) => children == seq![window],
                None => children.len() == 0,
            }
        }),
{
    let children = all_extracted(node.nodes@, false);
    if children.len() == 1 {
        assert(children == seq![children[0]]);
    }
}

/// What is saved of nodes is what is saved of each, in their order.
pub proof fn law_nodes_are_saved_in_their_order(
    a: Seq<Node>,
    b: Seq<Node>,
    node: Node,
    floating: bool,
)
    ensures
        all_extracted(a + b, floating) == all_extracted(a, floating) + all_extracted(b, floating),
        all_extracted(seq![node], floating) == match extracted(node, floating) {
            Some(tree) => seq![tree],
            None => seq![],
        },
    decreases b.len(),
{
    assert(seq![node].drop_last() == Seq::<Node>::empty());
    assert(all_extracted(seq![node].drop_last(), floating) == Seq::<Tree>::empty());
    if b.len() == 0 {
        assert(a + b == a);
        assert(all_extracted(b, floating) == Seq::<Tree>::empty());
    } else {
        assert((a + b).drop_last() == a + b.drop_last());
        law_nodes_are_saved_in_their_order(a, b.drop_last(), node, floating);
    }
    assert(all_extracted(a + b, floating) =~= all_extracted(a, floating) + all_extracted(
        b,
        floating,
    ));
}

} // verus!
