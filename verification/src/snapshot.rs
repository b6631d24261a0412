//! Saved trees of windows: what freezing a set stores and thawing restores.

use crate::text::{same_text, view_of};
use vstd::prelude::*;

verus! {

/// A window, or a container of windows and containers.
#[derive(Debug)]
pub enum TreeNode {
    Window { con_id: i64, app_id: Option<String>, name: Option<String>, floating: bool },
    Container { layout: String, children: Vec<TreeNode> },
}

/// The saved contents of a workspace.
#[derive(Debug)]
pub struct WorkspaceSnapshot {
    pub name: String,
    pub layout: String,
    pub tree: Vec<TreeNode>,
}

/// A `TreeNode` by its contents.
pub enum Tree {
    Window {
        con_id: i64,
        app_id: Option<Seq<char>>,
        name: Option<Seq<char>>,
        floating: bool,
    },
    Container { layout: Seq<char>, children: Seq<Tree> },
}

/// A `WorkspaceSnapshot` by its contents.
pub struct Snapshot {
    pub name: Seq<char>,
    pub layout: Seq<char>,
    pub tree: Seq<Tree>,
}

impl TreeNode {
    /// The contents of a node.
    pub open spec fn contents(self) -> Tree
        decreases self,
    {
        match self {
            TreeNode::Window { con_id, app_id, name, floating } => Tree::Window {
                con_id,
                app_id: view_of(app_id),
                name: view_of(name),
                floating,
            },
            TreeNode::Container { layout, children } => Tree::Container {
                layout: layout@,
                children: Seq::new(
                    children@.len(),
                    |i: int|
                        if 0 <= i < children@.len() {
                            children@[i].contents()
                        } else {
                            arbitrary()
                        },
                ),
            },
        }
    }
}

impl View for TreeNode {
    type V = Tree;

    open spec fn view(&self) -> Tree {
        self.contents()
    }
}

/// The contents of a list of nodes.
pub open spec fn trees(nodes: Seq<TreeNode>) -> Seq<Tree> {
    nodes.map_values(|n: TreeNode| n@)
}

impl View for WorkspaceSnapshot {
    type V = Snapshot;

    open spec fn view(&self) -> Snapshot {
        Snapshot { name: self.name@, layout: self.layout@, tree: trees(self.tree@) }
    }
}

/// The contents of a list of snapshots.
pub open spec fn shots(snapshots: Seq<WorkspaceSnapshot>) -> Seq<Snapshot> {
    snapshots.map_values(|s: WorkspaceSnapshot| s@)
}

/// The children of a container are the contents of its nodes.
proof fn lemma_children(layout: String, children: Vec<TreeNode>)
    ensures
        (TreeNode::Container { layout, children })@ == (Tree::Container {
            layout: layout@,
            children: trees(children@),
        }),
{
    assert((TreeNode::Container { layout, children })@->children =~= trees(children@));
}

/// The windows of a tree, in its order.
pub open spec fn window_ids(tree: Tree) -> Seq<i64>
    decreases tree,
{
    match tree {
        Tree::Window { con_id, .. } => seq![con_id],
        Tree::Container { children, .. } => all_ids(children),
    }
}

/// The windows of a list of trees, in its order.
pub open spec fn all_ids(trees: Seq<Tree>) -> Seq<i64>
    decreases trees,
{
    if trees.len() == 0 {
        seq![]
    } else {
        all_ids(trees.drop_last()) + window_ids(trees.last())
    }
}

/// The windows of a list of snapshots, in its order.
pub open spec fn snapshot_ids(snapshots: Seq<Snapshot>) -> Seq<i64>
    decreases snapshots.len(),
{
    if snapshots.len() == 0 {
        seq![]
    } else {
        snapshot_ids(snapshots.drop_last()) + all_ids(snapshots.last().tree)
    }
}

/// A tree without the pinned windows and without the containers they leave
/// empty; nothing where that is the whole tree.
pub open spec fn unpinned(tree: Tree, pinned: Seq<i64>) -> Option<Tree>
    decreases tree,
{
    match tree {
        Tree::Window { con_id, .. } => if pinned.contains(con_id) {
            None
        } else {
            Some(tree)
        },
        Tree::Container { layout, children } => {
            let kept = all_unpinned(children, pinned);
            if kept.len() == 0 {
                None
            } else {
                Some(Tree::Container { layout, children: kept })
            }
        },
    }
}

/// What is left of each tree without the pinned windows.
pub open spec fn all_unpinned(trees: Seq<Tree>, pinned: Seq<i64>) -> Seq<Tree>
    decreases trees,
{
    if trees.len() == 0 {
        seq![]
    } else {
        let front = all_unpinned(trees.drop_last(), pinned);
        match unpinned(trees.last(), pinned) {
            Some(tree) => front.push(tree),
            None => front,
        }
    }
}

/// What is left of each snapshot without the pinned windows.
pub open spec fn stripped(snapshots: Seq<Snapshot>, pinned: Seq<i64>) -> Seq<Snapshot>
    decreases snapshots.len(),
{
    if snapshots.len() == 0 {
        seq![]
    } else {
        let front = stripped(snapshots.drop_last(), pinned);
        let last = snapshots.last();
        let tree = all_unpinned(last.tree, pinned);
        if tree.len() == 0 {
            front
        } else {
            front.push(Snapshot { tree, ..last })
        }
    }
}

/// The snapshots with `tree` added to that of `workspace`.
pub open spec fn spliced(
    snapshots: Seq<Snapshot>,
    workspace: Seq<char>,
    layout: Seq<char>,
    tree: Seq<Tree>,
) -> Seq<Snapshot>
    decreases snapshots.len(),
{
    if snapshots.len() == 0 {
        seq![Snapshot { name: workspace, layout, tree }]
    } else if snapshots[0].name == workspace {
        seq![Snapshot { tree: snapshots[0].tree + tree, ..snapshots[0] }] + snapshots.drop_first()
    } else {
        seq![snapshots[0]] + spliced(snapshots.drop_first(), workspace, layout, tree)
    }
}

/// A copy of a node.
fn copy_node(node: &TreeNode) -> (r: TreeNode)
    ensures
        r@ == node@,
    decreases node,
{
    match node {
        TreeNode::Window { con_id, app_id, name, floating } => TreeNode::Window {
            con_id: *con_id,
            app_id: app_id.clone(),
            name: name.clone(),
            floating: *floating,
        },
        TreeNode::Container { layout, children } => {
            let copies = copy_nodes(children);
            let label = layout.clone();
            proof {
                lemma_children(*layout, *children);
                lemma_children(label, copies);
            }
            TreeNode::Container { layout: label, children: copies }
        },
    }
}

/// A copy of a list of nodes.
fn copy_nodes(nodes: &Vec<TreeNode>) -> (r: Vec<TreeNode>)
    ensures
        trees(r@) == trees(nodes@),
    decreases nodes,
{
    let mut copies: Vec<TreeNode> = Vec::new();
    let mut i: usize = 0;
    while i < nodes.len()
        invariant
            i <= nodes@.len(),
            trees(copies@) == trees(nodes@).take(i as int),
        decreases nodes.len() - i,
    {
        let ghost before = trees(copies@);
        let copy = copy_node(&nodes[i]);
        copies.push(copy);
        assert(trees(copies@) == before.push(copy@));
        i += 1;
    }
    assert(trees(nodes@).take(i as int) == trees(nodes@));
    copies
}

impl Clone for TreeNode {
    fn clone(&self) -> (r: Self)
        ensures
            r@ == self@,
    {
        copy_node(self)
    }
}

impl Clone for WorkspaceSnapshot {
    fn clone(&self) -> (r: Self)
        ensures
            r@ == self@,
    {
        WorkspaceSnapshot {
            name: self.name.clone(),
            layout: self.layout.clone(),
            tree: copy_nodes(&self.tree),
        }
    }
}

/// A copy of a list of snapshots.
pub fn copy_snapshots(snapshots: &Vec<WorkspaceSnapshot>) -> (r: Vec<WorkspaceSnapshot>)
    ensures
        shots(r@) == shots(snapshots@),
{
    let mut copies: Vec<WorkspaceSnapshot> = Vec::new();
    let mut i: usize = 0;
    while i < snapshots.len()
        invariant
            i <= snapshots@.len(),
            shots(copies@) == shots(snapshots@).take(i as int),
        decreases snapshots.len() - i,
    {
        let ghost before = shots(copies@);
        let copy = snapshots[i].clone();
        copies.push(copy);
        assert(shots(copies@) == before.push(copy@));
        i += 1;
    }
    assert(shots(snapshots@).take(i as int) == shots(snapshots@));
    copies
}

/// Whether `id` is one of `ids`.
pub fn contains_id(ids: &[i64], id: i64) -> (r: bool)
    ensures
        r == ids@.contains(id),
{
    let mut i: usize = 0;
    while i < ids.len()
        invariant
            i <= ids@.len(),
            forall|j: int| 0 <= j < i ==> ids@[j] != id,
        decreases ids.len() - i,
    {
        if ids[i] == id {
            return true;
        }
        i += 1;
    }
    false
}

/// Collect window con_ids from tree
pub fn collect_window_ids(tree: &[TreeNode]) -> (r: Vec<i64>)
    ensures
        r@ == all_ids(trees(tree@)),
    decreases tree@,
{
    let mut ids: Vec<i64> = Vec::new();
    let mut i: usize = 0;
    while i < tree.len()
        invariant
            i <= tree@.len(),
            ids@ == all_ids(trees(tree@).take(i as int)),
        decreases tree.len() - i,
    {
        proof {
            assert(trees(tree@).take(i + 1).drop_last() == trees(tree@).take(i as int));
            assert(trees(tree@).take(i + 1).last() == tree@[i as int]@);
        }
        match &tree[i] {
            TreeNode::Window { con_id, .. } => {
                ids.push(*con_id);
                assert(window_ids(tree@[i as int]@) == seq![*con_id]);
            },
            TreeNode::Container { layout, children } => {
                proof {
                    lemma_children(*layout, *children);
                }
                let mut inner = collect_window_ids(children.as_slice());
                assert(window_ids(tree@[i as int]@) == inner@);
                ids.append(&mut inner);
            },
        }
        i += 1;
    }
    assert(trees(tree@).take(i as int) == trees(tree@));
    ids
}

/// The windows of all snapshots.
pub fn collect_snapshot_ids(snapshots: &[WorkspaceSnapshot]) -> (r: Vec<i64>)
    ensures
        r@ == snapshot_ids(shots(snapshots@)),
{
    let mut ids: Vec<i64> = Vec::new();
    let mut i: usize = 0;
    while i < snapshots.len()
        invariant
            i <= snapshots@.len(),
            ids@ == snapshot_ids(shots(snapshots@).take(i as int)),
        decreases snapshots.len() - i,
    {
        let mut inner = collect_window_ids(snapshots[i].tree.as_slice());
        ids.append(&mut inner);
        assert(shots(snapshots@).take(i + 1).drop_last() == shots(snapshots@).take(i as int));
        i += 1;
    }
    assert(shots(snapshots@).take(i as int) == shots(snapshots@));
    ids
}

/// What is left of each node without the pinned windows.
fn keep(nodes: Vec<TreeNode>, pinned: &[i64]) -> (r: Vec<TreeNode>)
    ensures
        trees(r@) == all_unpinned(trees(nodes@), pinned@),
    decreases nodes@,
{
    let ghost all = nodes@;
    let mut kept: Vec<TreeNode> = Vec::new();
    for node in it: nodes
        invariant
            it.seq() == all,
            trees(kept@) == all_unpinned(trees(all).take(it.index() as int), pinned@),
    {
        proof {
            let i = it.index() as int;
            assert(trees(all).take(i + 1).drop_last() == trees(all).take(i));
            assert(trees(all).take(i + 1).last() == node@);
        }
        let ghost before = trees(kept@);
        let ghost left = unpinned(node@, pinned@);
        match node {
            TreeNode::Window { con_id, app_id, name, floating } => {
                assert(left == if pinned@.contains(con_id) {
                    None
                } else {
                    Some(node@)
                });
                if !contains_id(pinned, con_id) {
                    kept.push(TreeNode::Window { con_id, app_id, name, floating });
                    assert(trees(kept@) == before.push(node@));
                }
            },
            TreeNode::Container { layout, children } => {
                proof {
                    lemma_children(layout, children);
                }
                let children = keep(children, pinned);
                assert(left == if children@.len() == 0 {
                    None
                } else {
                    Some(Tree::Container { layout: layout@, children: trees(children@) })
                });
                if children.len() > 0 {
                    proof {
                        lemma_children(layout, children);
                    }
                    let container = TreeNode::Container { layout, children };
                    kept.push(container);
                    assert(trees(kept@) == before.push(container@));
                }
            },
        }
    }
    assert(trees(all).take(all.len() as int) == trees(all));
    kept
}

/// Drop pinned windows from `snapshots`. A pin belongs to whichever set is
/// on show, so freezing one along with the set it happens to be visiting
/// would restore a second copy after the window has moved on.
pub fn strip_pins(snapshots: &mut Vec<WorkspaceSnapshot>, pinned: &[i64])
    ensures
        shots(final(snapshots)@) == stripped(shots(old(snapshots)@), pinned@),
{
    let mut all: Vec<WorkspaceSnapshot> = Vec::new();
    std::mem::swap(&mut all, snapshots);
    let ghost before = all@;
    let mut kept: Vec<WorkspaceSnapshot> = Vec::new();
    for snapshot in it: all
        invariant
            it.seq() == before,
            shots(kept@) == stripped(shots(before).take(it.index() as int), pinned@),
    {
        proof {
            let i = it.index() as int;
            assert(shots(before).take(i + 1).drop_last() == shots(before).take(i));
            assert(shots(before).take(i + 1).last() == snapshot@);
        }
        let ghost front = shots(kept@);
        let WorkspaceSnapshot { name, layout, tree } = snapshot;
        let tree = keep(tree, pinned);
        if tree.len() > 0 {
            let stripped_one = WorkspaceSnapshot { name, layout, tree };
            kept.push(stripped_one);
            assert(shots(kept@) == front.push(stripped_one@));
        }
    }
    assert(shots(before).take(before.len() as int) == shots(before));
    *snapshots = kept;
}

/// Add `tree` to the snapshot of `workspace`, creating it if the frozen set
/// has none. Existing contents keep their layout and come first.
pub fn splice_snapshot(
    snapshots: &mut Vec<WorkspaceSnapshot>,
    workspace: &str,
    layout: &str,
    tree: Vec<TreeNode>,
)
    ensures
        shots(final(snapshots)@) == spliced(
            shots(old(snapshots)@),
            workspace@,
            layout@,
            trees(tree@),
        ),
{
    let ghost before = shots(snapshots@);
    let mut i: usize = 0;
    assert(before.skip(0) == before);
    assert(before.take(0) + spliced(before, workspace@, layout@, trees(tree@)) == spliced(
        before,
        workspace@,
        layout@,
        trees(tree@),
    ));
    while i < snapshots.len()
        invariant
            i <= snapshots@.len(),
            shots(snapshots@) == before,
            before == shots(old(snapshots)@),
            spliced(before, workspace@, layout@, trees(tree@)) == before.take(i as int) + spliced(
                before.skip(i as int),
                workspace@,
                layout@,
                trees(tree@),
            ),
        decreases snapshots.len() - i,
    {
        let ghost rest = before.skip(i as int);
        assert(rest[0] == snapshots@[i as int]@);
        assert(rest.drop_first() == before.skip(i + 1));
        if same_text(snapshots[i].name.as_str(), workspace) {
            let ghost one = snapshots@[i as int];
            let mut added = tree;
            snapshots[i].tree.append(&mut added);
            proof {
                assert(trees(snapshots@[i as int].tree@) == trees(one.tree@) + trees(tree@));
                assert(shots(snapshots@) == before.update(i as int, snapshots@[i as int]@));
                assert(shots(snapshots@) == before.take(i as int) + spliced(
                    rest,
                    workspace@,
                    layout@,
                    trees(tree@),
                ));
            }
            return;
        }
        assert(before.take(i as int) + (seq![rest[0]] + spliced(
            before.skip(i + 1),
            workspace@,
            layout@,
            trees(tree@),
        )) == before.take(i + 1) + spliced(before.skip(i + 1), workspace@, layout@, trees(tree@)));
        i += 1;
    }
    assert(before.skip(i as int).len() == 0);
    assert(before.take(i as int) == before);
    let added = WorkspaceSnapshot { name: workspace.to_owned(), layout: layout.to_owned(), tree };
    snapshots.push(added);
    assert(shots(snapshots@) == before.push(added@));
    assert(before + seq![added@] == before.push(added@));
}

/// Whether no container of a tree is empty.
pub open spec fn solid(tree: Tree) -> bool
    decreases tree,
{
    match tree {
        Tree::Window { .. } => true,
        Tree::Container { children, .. } => children.len() > 0 && all_solid(children),
    }
}

/// Whether no container of the trees is empty.
pub open spec fn all_solid(trees: Seq<Tree>) -> bool
    decreases trees,
{
    trees.len() > 0 ==> all_solid(trees.drop_last()) && solid(trees.last())
}

/// A tree without empty containers holds a window.
pub proof fn law_solid_tree_holds_a_window(tree: Tree)
    requires
        solid(tree),
    ensures
        window_ids(tree).len() > 0,
    decreases tree,
{
    if let Tree::Container { layout, children } = tree {
        law_solid_tree_holds_a_window(children.last());
        assert(window_ids(tree) == all_ids(children));
    }
}

/// Trees without empty containers put together.
pub proof fn lemma_all_solid_concat(a: Seq<Tree>, b: Seq<Tree>)
    requires
        all_solid(a),
        all_solid(b),
    ensures
        all_solid(a + b),
    decreases b.len(),
{
    if b.len() == 0 {
        assert(a + b == a);
    } else {
        assert((a + b).drop_last() == a + b.drop_last());
        lemma_all_solid_concat(a, b.drop_last());
    }
}

/// The windows of trees put together.
pub proof fn lemma_all_ids_concat(a: Seq<Tree>, b: Seq<Tree>)
    ensures
        all_ids(a + b) == all_ids(a) + all_ids(b),
    decreases b.len(),
{
    if b.len() == 0 {
        assert(a + b == a);
    } else {
        assert((a + b).drop_last() == a + b.drop_last());
        lemma_all_ids_concat(a, b.drop_last());
    }
}

proof fn lemma_snapshot_ids_concat(a: Seq<Snapshot>, b: Seq<Snapshot>)
    ensures
        snapshot_ids(a + b) == snapshot_ids(a) + snapshot_ids(b),
    decreases b.len(),
{
    if b.len() == 0 {
        assert(a + b == a);
    } else {
        assert((a + b).drop_last() == a + b.drop_last());
        lemma_snapshot_ids_concat(a, b.drop_last());
    }
}

proof fn lemma_unpinned_ids(tree: Tree, pinned: Seq<i64>)
    ensures
        ({
            let kept = window_ids(tree).filter(|id: i64| !pinned.contains(id));
            match unpinned(tree, pinned) {
                Some(left) => window_ids(left) == kept && solid(left),
                None => kept.len() == 0,
            }
        }),
    decreases tree,
{
    let f = |id: i64| !pinned.contains(id);
    match tree {
        Tree::Window { con_id, .. } => {
            reveal_with_fuel(Seq::filter, 2);
            assert(seq![con_id].drop_last() == Seq::<i64>::empty());
            assert(Seq::<i64>::empty().filter(f) == Seq::<i64>::empty());
            assert(seq![con_id].filter(f) == if pinned.contains(con_id) {
                Seq::<i64>::empty()
            } else {
                seq![con_id]
            });
        },
        Tree::Container { layout, children } => {
            lemma_all_unpinned_ids(children, pinned);
            let kept = all_unpinned(children, pinned);
            if kept.len() > 0 {
                let left = Tree::Container { layout, children: kept };
                assert(window_ids(left) == all_ids(kept));
                assert(unpinned(tree, pinned) == Some(left));
            } else {
                assert(all_ids(kept) == Seq::<i64>::empty());
            }
        },
    }
}

proof fn lemma_all_unpinned_ids(trees: Seq<Tree>, pinned: Seq<i64>)
    ensures
        all_ids(all_unpinned(trees, pinned)) == all_ids(trees).filter(
            |id: i64| !pinned.contains(id),
        ),
        all_solid(all_unpinned(trees, pinned)),
    decreases trees,
{
    let f = |id: i64| !pinned.contains(id);
    if trees.len() == 0 {
        reveal(Seq::filter);
        assert(all_ids(trees).filter(f) == Seq::<i64>::empty());
    } else {
        lemma_all_unpinned_ids(trees.drop_last(), pinned);
        lemma_unpinned_ids(trees.last(), pinned);
        Seq::filter_distributes_over_add(all_ids(trees.drop_last()), window_ids(trees.last()), f);
        let front = all_unpinned(trees.drop_last(), pinned);
        match unpinned(trees.last(), pinned) {
            Some(left) => {
                assert(front.push(left).drop_last() == front);
                assert(all_ids(front.push(left)) == all_ids(front) + window_ids(left));
            },
            None => {
                assert(all_ids(front) + window_ids(trees.last()).filter(f) == all_ids(front));
            },
        }
    }
}

/// Stripping pins takes out the pinned windows and no others, and leaves the
/// others in their order.
pub proof fn law_stripping_takes_out_exactly_the_pinned_windows(
    snapshots: Seq<Snapshot>,
    pinned: Seq<i64>,
)
    ensures
        snapshot_ids(stripped(snapshots, pinned)) == snapshot_ids(snapshots).filter(
            |id: i64| !pinned.contains(id),
        ),
    decreases snapshots.len(),
{
    let f = |id: i64| !pinned.contains(id);
    if snapshots.len() == 0 {
        reveal(Seq::filter);
        assert(snapshot_ids(snapshots).filter(f) == Seq::<i64>::empty());
    } else {
        law_stripping_takes_out_exactly_the_pinned_windows(snapshots.drop_last(), pinned);
        let last = snapshots.last();
        lemma_all_unpinned_ids(last.tree, pinned);
        Seq::filter_distributes_over_add(
            snapshot_ids(snapshots.drop_last()),
            all_ids(last.tree),
            f,
        );
        let front = stripped(snapshots.drop_last(), pinned);
        let tree = all_unpinned(last.tree, pinned);
        if tree.len() == 0 {
            assert(all_ids(tree) == Seq::<i64>::empty());
            assert(snapshot_ids(front) + all_ids(tree) == snapshot_ids(front));
        } else {
            let kept = Snapshot { tree, ..last };
            assert(front.push(kept).drop_last() == front);
        }
    }
}

/// Stripping pins leaves no empty container and no empty snapshot.
pub proof fn law_stripping_leaves_nothing_empty(snapshots: Seq<Snapshot>, pinned: Seq<i64>, i: int)
    requires
        0 <= i < stripped(snapshots, pinned).len(),
    ensures
        stripped(snapshots, pinned)[i].tree.len() > 0,
        all_solid(stripped(snapshots, pinned)[i].tree),
    decreases snapshots.len(),
{
    if snapshots.len() > 0 {
        lemma_all_unpinned_ids(snapshots.last().tree, pinned);
        let front = stripped(snapshots.drop_last(), pinned);
        if i < front.len() {
            law_stripping_leaves_nothing_empty(snapshots.drop_last(), pinned, i);
        }
    }
}

proof fn lemma_unpinned_again(tree: Tree, pinned: Seq<i64>)
    ensures
        match unpinned(tree, pinned) {
            Some(left) => unpinned(left, pinned) == Some(left),
            None => true,
        },
    decreases tree,
{
    if let Tree::Container { layout, children } = tree {
        lemma_all_unpinned_again(children, pinned);
        let kept = all_unpinned(children, pinned);
        if kept.len() > 0 {
            let left = Tree::Container { layout, children: kept };
            assert(unpinned(left, pinned) == Some(left));
        }
    }
}

proof fn lemma_all_unpinned_again(trees: Seq<Tree>, pinned: Seq<i64>)
    ensures
        all_unpinned(all_unpinned(trees, pinned), pinned) == all_unpinned(trees, pinned),
    decreases trees,
{
    if trees.len() > 0 {
        lemma_all_unpinned_again(trees.drop_last(), pinned);
        lemma_unpinned_again(trees.last(), pinned);
        let front = all_unpinned(trees.drop_last(), pinned);
        if let Some(left) = unpinned(trees.last(), pinned) {
            assert(front.push(left).drop_last() == front);
        }
    }
}

/// Stripping the same pins twice is stripping them once.
pub proof fn law_stripping_twice_is_stripping_once(snapshots: Seq<Snapshot>, pinned: Seq<i64>)
    ensures
        stripped(stripped(snapshots, pinned), pinned) == stripped(snapshots, pinned),
    decreases snapshots.len(),
{
    if snapshots.len() > 0 {
        law_stripping_twice_is_stripping_once(snapshots.drop_last(), pinned);
        let last = snapshots.last();
        lemma_all_unpinned_again(last.tree, pinned);
        let front = stripped(snapshots.drop_last(), pinned);
        let tree = all_unpinned(last.tree, pinned);
        if tree.len() > 0 {
            assert(front.push(Snapshot { tree, ..last }).drop_last() == front);
        }
    }
}

/// Splicing adds the windows of the tree to those of the snapshots and takes
/// none away.
pub proof fn law_splicing_adds_exactly_the_windows_of_the_tree(
    snapshots: Seq<Snapshot>,
    workspace: Seq<char>,
    layout: Seq<char>,
    tree: Seq<Tree>,
)
    ensures
        snapshot_ids(spliced(snapshots, workspace, layout, tree)).to_multiset() == snapshot_ids(
            snapshots,
        ).to_multiset().add(all_ids(tree).to_multiset()),
    decreases snapshots.len(),
{
    broadcast use vstd::seq_lib::group_to_multiset_ensures;

    let after = spliced(snapshots, workspace, layout, tree);
    if snapshots.len() == 0 {
        let one = Snapshot { name: workspace, layout, tree };
        lemma_snapshot_ids_one(one);
        assert(snapshot_ids(snapshots).to_multiset() =~= vstd::multiset::Multiset::empty());
        assert(snapshot_ids(after).to_multiset() =~= snapshot_ids(snapshots).to_multiset().add(
            all_ids(tree).to_multiset(),
        ));
    } else {
        let rest = snapshots.drop_first();
        let here = snapshots[0];
        assert(snapshots == seq![here] + rest);
        lemma_snapshot_ids_concat(seq![here], rest);
        lemma_snapshot_ids_one(here);
        vstd::seq_lib::lemma_multiset_commutative(all_ids(here.tree), snapshot_ids(rest));
        if here.name == workspace {
            let grown = Snapshot { tree: here.tree + tree, ..here };
            lemma_snapshot_ids_concat(seq![grown], rest);
            lemma_snapshot_ids_one(grown);
            lemma_all_ids_concat(here.tree, tree);
            vstd::seq_lib::lemma_multiset_commutative(all_ids(here.tree), all_ids(tree));
            vstd::seq_lib::lemma_multiset_commutative(
                all_ids(here.tree) + all_ids(tree),
                snapshot_ids(rest),
            );
        } else {
            law_splicing_adds_exactly_the_windows_of_the_tree(rest, workspace, layout, tree);
            let tail = spliced(rest, workspace, layout, tree);
            lemma_snapshot_ids_concat(seq![here], tail);
            vstd::seq_lib::lemma_multiset_commutative(all_ids(here.tree), snapshot_ids(tail));
        }
        assert(snapshot_ids(after).to_multiset() =~= snapshot_ids(snapshots).to_multiset().add(
            all_ids(tree).to_multiset(),
        ));
    }
}

proof fn lemma_snapshot_ids_one(snapshot: Snapshot)
    ensures
        snapshot_ids(seq![snapshot]) == all_ids(snapshot.tree),
{
    assert(seq![snapshot].drop_last() == Seq::<Snapshot>::empty());
    assert(snapshot_ids(Seq::<Snapshot>::empty()) == Seq::<i64>::empty());
    assert(Seq::<i64>::empty() + all_ids(snapshot.tree) == all_ids(snapshot.tree));
}

/// What is left of a snapshot without the pinned windows keeps its name, its
/// layout and its other windows.
pub proof fn lemma_stripped_from(snapshots: Seq<Snapshot>, pinned: Seq<i64>, i: int) -> (j: int)
    requires
        0 <= i < stripped(snapshots, pinned).len(),
    ensures
        0 <= j < snapshots.len(),
        stripped(snapshots, pinned)[i].name == snapshots[j].name,
        stripped(snapshots, pinned)[i].layout == snapshots[j].layout,
        all_ids(stripped(snapshots, pinned)[i].tree) == all_ids(snapshots[j].tree).filter(
            |id: i64| !pinned.contains(id),
        ),
    decreases snapshots.len(),
{
    let front = stripped(snapshots.drop_last(), pinned);
    if i < front.len() {
        lemma_stripped_from(snapshots.drop_last(), pinned, i)
    } else {
        lemma_all_unpinned_ids(snapshots.last().tree, pinned);
        snapshots.len() - 1
    }
}

/// The windows of trees are those of one after another, each window itself and
/// of a container those of its children.
pub proof fn law_windows_are_listed_in_their_order(
    a: Seq<Tree>,
    b: Seq<Tree>,
    window: Tree,
    layout: Seq<char>,
    some: Seq<Snapshot>,
    last: Snapshot,
)
    ensures
        all_ids(a + b) == all_ids(a) + all_ids(b),
        window matches Tree::Window { con_id, .. } ==> all_ids(seq![window]) == seq![con_id],
        all_ids(seq![Tree::Container { layout, children: a }]) == all_ids(a),
        snapshot_ids(seq![]) == Seq::<i64>::empty(),
        snapshot_ids(some.push(last)) == snapshot_ids(some) + all_ids(last.tree),
{
    lemma_all_ids_concat(a, b);
    let container = Tree::Container { layout, children: a };
    let none = Seq::<Tree>::empty();
    assert(all_ids(none) == Seq::<i64>::empty());
    assert(seq![window].drop_last() == none);
    assert(all_ids(seq![window]) == all_ids(none) + window_ids(window));
    assert(seq![container].drop_last() == none);
    assert(all_ids(seq![container]) == all_ids(none) + window_ids(container));
    assert(some.push(last).drop_last() == some);
}

/// Splicing trees in adds them to the first snapshot of the workspace, after
/// what it holds, and leaves all else as it is; where there is no such
/// snapshot, one comes last.
pub proof fn law_splicing_adds_to_the_workspace_alone(
    snapshots: Seq<Snapshot>,
    workspace: Seq<char>,
    layout: Seq<char>,
    tree: Seq<Tree>,
)
    ensures
        ({
            let after = spliced(snapshots, workspace, layout, tree);
            ||| {
                &&& forall|i: int|
                    0 <= i < snapshots.len() ==> (#[trigger] snapshots[i]).name != workspace
                &&& after == snapshots.push(Snapshot { name: workspace, layout, tree })
            }
            ||| exists|k: int|
                {
                    &&& 0 <= k < snapshots.len()
                    &&& (#[trigger] snapshots[k]).name == workspace
                    &&& forall|i: int| 0 <= i < k ==> (#[trigger] snapshots[i]).name != workspace
                    &&& after == snapshots.update(
                        k,
                        Snapshot { tree: snapshots[k].tree + tree, ..snapshots[k] },
                    )
                }
        }),
    decreases snapshots.len(),
{
    let after = spliced(snapshots, workspace, layout, tree);
    if snapshots.len() > 0 {
        let rest = snapshots.drop_first();
        if snapshots[0].name == workspace {
            assert(after == snapshots.update(
                0,
                Snapshot { tree: snapshots[0].tree + tree, ..snapshots[0] },
            ));
        } else {
            law_splicing_adds_to_the_workspace_alone(rest, workspace, layout, tree);
            let more = spliced(rest, workspace, layout, tree);
            assert(after == seq![snapshots[0]] + more);
            if forall|i: int| 0 <= i < rest.len() ==> (#[trigger] rest[i]).name != workspace {
                assert(more == rest.push(Snapshot { name: workspace, layout, tree }));
                assert(after == snapshots.push(Snapshot { name: workspace, layout, tree }));
                assert forall|i: int| 0 <= i < snapshots.len() implies (
                #[trigger] snapshots[i]).name != workspace by {
                    if i > 0 {
                        assert(rest[i - 1] == snapshots[i]);
                    }
                }
            } else {
                let k = choose|k: int|
                    {
                        &&& 0 <= k < rest.len()
                        &&& (#[trigger] rest[k]).name == workspace
                        &&& forall|i: int| 0 <= i < k ==> (#[trigger] rest[i]).name != workspace
                        &&& more == rest.update(
                            k,
                            Snapshot { tree: rest[k].tree + tree, ..rest[k] },
                        )
                    };
                assert(snapshots[k + 1] == rest[k]);
                assert forall|i: int| 0 <= i < k + 1 implies (#[trigger] snapshots[i]).name
                    != workspace by {
                    if i > 0 {
                        assert(rest[i - 1] == snapshots[i]);
                    }
                }
                assert(after == snapshots.update(
                    k + 1,
                    Snapshot { tree: snapshots[k + 1].tree + tree, ..snapshots[k + 1] },
                ));
            }
        }
    }
}

/// Whether a tree holds a window below containers of these layouts, the
/// outermost first.
pub open spec fn holds_below(tree: Tree, layouts: Seq<Seq<char>>, window: Tree) -> bool
    decreases tree,
{
    match tree {
        Tree::Window { .. } => layouts.len() == 0 && tree == window,
        Tree::Container { layout, children } => layouts.len() > 0 && layouts[0] == layout
            && any_holds_below(children, layouts.drop_first(), window),
    }
}

/// Whether one of the trees holds a window below containers of these layouts.
pub open spec fn any_holds_below(
    trees: Seq<Tree>,
    layouts: Seq<Seq<char>>,
    window: Tree,
) -> bool
    decreases trees,
{
    trees.len() > 0 && (any_holds_below(trees.drop_last(), layouts, window) || holds_below(
        trees.last(),
        layouts,
        window,
    ))
}

/// Stripping pins leaves every other window where it is: in the same
/// containers, and as it was; and no pinned window anywhere.
pub proof fn law_stripping_leaves_other_windows_in_place(
    trees: Seq<Tree>,
    pinned: Seq<i64>,
    layouts: Seq<Seq<char>>,
    con_id: i64,
    app_id: Option<Seq<char>>,
    name: Option<Seq<char>>,
    floating: bool,
)
    ensures
        ({
            let window = Tree::Window { con_id, app_id, name, floating };
            any_holds_below(all_unpinned(trees, pinned), layouts, window) <==> any_holds_below(
                trees,
                layouts,
                window,
            ) && !pinned.contains(con_id)
        }),
    decreases trees,
{
    let window = Tree::Window { con_id, app_id, name, floating };
    if trees.len() > 0 {
        let last = trees.last();
        law_stripping_leaves_other_windows_in_place(
            trees.drop_last(),
            pinned,
            layouts,
            con_id,
            app_id,
            name,
            floating,
        );
        lemma_stripping_leaves_window_in_place(
            last,
            pinned,
            layouts,
            con_id,
            app_id,
            name,
            floating,
        );
        let front = all_unpinned(trees.drop_last(), pinned);
        if let Some(left) = unpinned(last, pinned) {
            assert(front.push(left).drop_last() == front);
        }
    }
}

proof fn lemma_stripping_leaves_window_in_place(
    tree: Tree,
    pinned: Seq<i64>,
    layouts: Seq<Seq<char>>,
    con_id: i64,
    app_id: Option<Seq<char>>,
    name: Option<Seq<char>>,
    floating: bool,
)
    ensures
        ({
            let window = Tree::Window { con_id, app_id, name, floating };
            match unpinned(tree, pinned) {
                Some(left) => holds_below(left, layouts, window) <==> holds_below(
                    tree,
                    layouts,
                    window,
                ) && !pinned.contains(con_id),
                None => !(holds_below(tree, layouts, window) && !pinned.contains(con_id)),
            }
        }),
    decreases tree,
{
    if let Tree::Container { layout, children } = tree {
        law_stripping_leaves_other_windows_in_place(
            children,
            pinned,
            layouts.drop_first(),
            con_id,
            app_id,
            name,
            floating,
        );
    }
}

/// Stripping pins strips each snapshot, keeps its name and layout, and drops
/// those that nothing is left of.
pub proof fn law_stripping_keeps_what_something_is_left_of(
    snapshots: Seq<Snapshot>,
    pinned: Seq<i64>,
)
    ensures
        stripped(snapshots, pinned) == snapshots.map_values(
            |s: Snapshot| Snapshot { tree: all_unpinned(s.tree, pinned), ..s },
        ).filter(|s: Snapshot| s.tree.len() > 0),
    decreases snapshots.len(),
{
    let g = |s: Snapshot| Snapshot { tree: all_unpinned(s.tree, pinned), ..s };
    let f = |s: Snapshot| s.tree.len() > 0;
    reveal(Seq::filter);
    if snapshots.len() > 0 {
        let front = snapshots.drop_last();
        law_stripping_keeps_what_something_is_left_of(front, pinned);
        assert(snapshots.map_values(g).drop_last() == front.map_values(g));
    }
}

} // verus!
