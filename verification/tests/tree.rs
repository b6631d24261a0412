use space::snapshot::{collect_window_ids, TreeNode};
use space::tree::{
    all_window_ids, extract_tree, find_focused_workspace, find_workspace, find_workspaces,
    first_tiled_window, focused_window_id, has_focused_descendant, layout_to_string,
    snapshot_workspace, Layout, Node, NodeKind,
};

fn node(id: i64, kind: NodeKind, pid: Option<i32>, layout: Layout, nodes: Vec<Node>) -> Node {
    Node {
        id,
        kind,
        layout,
        name: Some(format!("n{}", id)),
        app_id: pid.map(|_| "foot".to_string()),
        pid,
        focused: false,
        nodes,
        floating_nodes: vec![],
    }
}

fn window(id: i64) -> Node {
    node(id, NodeKind::Con, Some(1), Layout::Other, vec![])
}

fn focused(id: i64) -> Node {
    Node {
        focused: true,
        ..window(id)
    }
}

fn workspace(id: i64, name: &str, nodes: Vec<Node>) -> Node {
    Node {
        name: Some(name.to_string()),
        ..node(id, NodeKind::Workspace, None, Layout::SplitH, nodes)
    }
}

fn root(workspaces: Vec<Node>) -> Node {
    let output = node(2, NodeKind::Output, None, Layout::Other, workspaces);
    node(1, NodeKind::Root, None, Layout::SplitH, vec![output])
}

fn tree(node: Node) -> Option<TreeNode> {
    extract_tree(&node, false)
}

fn window_ids(node: &TreeNode) -> Vec<i64> {
    match node {
        TreeNode::Window { con_id, .. } => vec![*con_id],
        TreeNode::Container { children, .. } => children.iter().flat_map(window_ids).collect(),
    }
}

#[test]
fn extract_tree_reads_window() {
    match tree(window(7)) {
        Some(TreeNode::Window {
            con_id,
            app_id,
            floating,
            ..
        }) => {
            assert_eq!(con_id, 7);
            assert_eq!(app_id.as_deref(), Some("foot"));
            assert!(!floating);
        }
        other => panic!("expected window, got {:?}", other),
    }
}

#[test]
fn extract_tree_drops_empty_container() {
    assert!(tree(node(1, NodeKind::Con, None, Layout::SplitH, vec![])).is_none());
}

#[test]
fn extract_tree_unwraps_single_window_container() {
    match tree(node(1, NodeKind::Con, None, Layout::SplitV, vec![window(7)])) {
        Some(TreeNode::Window { con_id, .. }) => assert_eq!(con_id, 7),
        other => panic!("expected bare window, got {:?}", other),
    }
}

#[test]
fn extract_tree_keeps_nested_layout() {
    let inner = node(2, NodeKind::Con, None, Layout::Tabbed, vec![window(8), window(9)]);
    let outer = node(1, NodeKind::Con, None, Layout::SplitV, vec![window(7), inner]);
    match tree(outer) {
        Some(TreeNode::Container { layout, children }) => {
            assert_eq!(layout, "splitv");
            assert_eq!(children.len(), 2);
            match &children[1] {
                TreeNode::Container { layout, .. } => assert_eq!(layout, "tabbed"),
                other => panic!("expected tabbed container, got {:?}", other),
            }
            assert_eq!(
                children.iter().flat_map(window_ids).collect::<Vec<_>>(),
                [7, 8, 9]
            );
        }
        other => panic!("expected container, got {:?}", other),
    }
}

#[test]
fn extract_tree_ignores_workspaces() {
    assert!(tree(node(1, NodeKind::Workspace, None, Layout::SplitH, vec![window(7)])).is_none());
}

#[test]
fn extract_tree_keeps_a_container_round_a_single_container() {
    let inner = node(2, NodeKind::Con, None, Layout::Tabbed, vec![window(8), window(9)]);
    match tree(node(1, NodeKind::Con, None, Layout::Stacked, vec![inner])) {
        Some(TreeNode::Container { layout, children }) => {
            assert_eq!(layout, "stacking");
            assert_eq!(children.len(), 1);
        }
        other => panic!("expected container, got {:?}", other),
    }
}

#[test]
fn floating_container_counts_by_what_is_in_it() {
    let bare = node(3, NodeKind::FloatingCon, Some(1), Layout::Other, vec![]);
    match extract_tree(&bare, true) {
        Some(TreeNode::Window { con_id, floating, .. }) => {
            assert_eq!(con_id, 3);
            assert!(floating);
        }
        other => panic!("expected window, got {:?}", other),
    }
    let full = node(3, NodeKind::FloatingCon, None, Layout::SplitH, vec![window(4)]);
    match extract_tree(&full, true) {
        Some(TreeNode::Window { con_id, floating, .. }) => {
            assert_eq!(con_id, 4);
            assert!(!floating);
        }
        other => panic!("expected window, got {:?}", other),
    }
}

#[test]
fn layouts_have_the_names_sway_takes() {
    assert_eq!(layout_to_string(Layout::SplitH), "splith");
    assert_eq!(layout_to_string(Layout::SplitV), "splitv");
    assert_eq!(layout_to_string(Layout::Tabbed), "tabbed");
    assert_eq!(layout_to_string(Layout::Stacked), "stacking");
    assert_eq!(layout_to_string(Layout::Other), "splith");
}

#[test]
fn snapshot_takes_floating_windows_last() {
    let ws = Node {
        floating_nodes: vec![window(9)],
        layout: Layout::Tabbed,
        ..workspace(3, "Q(work)", vec![window(7), window(8)])
    };
    let snapshot = snapshot_workspace(&ws).expect("a snapshot");
    assert_eq!(snapshot.name, "Q(work)");
    assert_eq!(snapshot.layout, "tabbed");
    assert_eq!(collect_window_ids(&snapshot.tree), [7, 8, 9]);
    assert!(matches!(snapshot.tree[2], TreeNode::Window { floating: true, .. }));
    assert!(matches!(snapshot.tree[1], TreeNode::Window { floating: false, .. }));
}

#[test]
fn floating_window_alone_makes_a_snapshot() {
    let ws = Node {
        floating_nodes: vec![node(7, NodeKind::FloatingCon, Some(1), Layout::Other, vec![])],
        ..workspace(3, "Q(work)", vec![])
    };
    let snapshot = snapshot_workspace(&ws).expect("a snapshot");
    assert_eq!(collect_window_ids(&snapshot.tree), [7]);
    assert!(matches!(snapshot.tree[0], TreeNode::Window { floating: true, .. }));
}

#[test]
fn snapshot_of_an_empty_workspace_is_none() {
    assert!(snapshot_workspace(&workspace(3, "Q(work)", vec![])).is_none());
    let nameless = Node {
        name: None,
        ..workspace(3, "", vec![window(7)])
    };
    assert_eq!(snapshot_workspace(&nameless).expect("a snapshot").name, "");
}

#[test]
fn find_workspaces_takes_those_of_the_set() {
    let tree = root(vec![
        workspace(3, "Q(work)", vec![window(7)]),
        workspace(4, "Q(main)", vec![window(8)]),
        workspace(5, "foo(bar)(work)", vec![window(9)]),
        workspace(6, "Z(work)", vec![]),
    ]);
    let mut snapshots = vec![];
    find_workspaces(&tree, "work", &mut snapshots);
    let names: Vec<&str> = snapshots.iter().map(|s| s.name.as_str()).collect();
    assert_eq!(names, ["Q(work)", "foo(bar)(work)"]);
}

#[test]
fn focused_workspace_is_the_one_that_holds_the_focus() {
    let tree = root(vec![
        workspace(3, "Q(work)", vec![window(7)]),
        workspace(4, "W(work)", vec![window(8), focused(9)]),
    ]);
    assert_eq!(find_focused_workspace(&tree).map(|n| n.id), Some(4));
    assert_eq!(focused_window_id(&tree), Some(9));

    let empty = Node {
        focused: true,
        ..workspace(5, "E(work)", vec![])
    };
    let tree = root(vec![workspace(3, "Q(work)", vec![window(7)]), empty]);
    assert_eq!(find_focused_workspace(&tree).map(|n| n.id), Some(5));
    assert_eq!(focused_window_id(&tree), None);

    let tree = root(vec![workspace(3, "Q(work)", vec![window(7)])]);
    assert!(find_focused_workspace(&tree).is_none());
    assert!(!has_focused_descendant(&tree));
}

#[test]
fn focus_on_a_floating_window_counts() {
    let ws = Node {
        floating_nodes: vec![focused(9)],
        ..workspace(3, "Q(work)", vec![window(7)])
    };
    let tree = root(vec![ws]);
    assert!(has_focused_descendant(&tree));
    assert_eq!(find_focused_workspace(&tree).map(|n| n.id), Some(3));
    assert_eq!(focused_window_id(&tree), Some(9));
}

#[test]
fn workspace_is_found_by_its_name() {
    let tree = root(vec![
        workspace(3, "Q(work)", vec![window(7)]),
        workspace(4, "W(work)", vec![]),
    ]);
    assert_eq!(find_workspace(&tree, "W(work)").map(|n| n.id), Some(4));
    assert!(find_workspace(&tree, "n2").is_none());
}

#[test]
fn first_tiled_window_is_the_first_leaf() {
    let inner = node(5, NodeKind::Con, None, Layout::Tabbed, vec![window(8), window(9)]);
    let ws = Node {
        floating_nodes: vec![window(6)],
        ..workspace(3, "Q(work)", vec![inner, window(7)])
    };
    assert_eq!(first_tiled_window(&ws), Some(8));
    let floating = Node {
        floating_nodes: vec![window(6)],
        ..workspace(3, "Q(work)", vec![])
    };
    assert_eq!(first_tiled_window(&floating), None);
}

#[test]
fn all_window_ids_counts_every_window() {
    let ws = Node {
        floating_nodes: vec![node(6, NodeKind::FloatingCon, Some(1), Layout::Other, vec![])],
        ..workspace(3, "Q(work)", vec![window(7), window(8)])
    };
    assert_eq!(all_window_ids(&root(vec![ws])), [7, 8, 6]);
}
