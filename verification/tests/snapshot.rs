use space::snapshot::{
    collect_snapshot_ids, collect_window_ids, splice_snapshot, strip_pins, TreeNode,
    WorkspaceSnapshot,
};

fn win(id: i64) -> TreeNode {
    TreeNode::Window {
        con_id: id,
        app_id: None,
        name: None,
        floating: false,
    }
}

fn container(layout: &str, children: Vec<TreeNode>) -> TreeNode {
    TreeNode::Container {
        layout: layout.to_string(),
        children,
    }
}

fn snapshot(name: &str, tree: Vec<TreeNode>) -> WorkspaceSnapshot {
    WorkspaceSnapshot {
        name: name.to_string(),
        layout: "splith".to_string(),
        tree,
    }
}

fn window_ids(node: &TreeNode) -> Vec<i64> {
    match node {
        TreeNode::Window { con_id, .. } => vec![*con_id],
        TreeNode::Container { children, .. } => children.iter().flat_map(window_ids).collect(),
    }
}

#[test]
fn strip_pins_empties_containers_and_workspaces() {
    let mut snapshots = vec![
        snapshot(
            "Q(work)",
            vec![
                win(1),
                TreeNode::Container {
                    layout: "splitv".to_string(),
                    children: vec![win(2)],
                },
            ],
        ),
        snapshot("Z(work)", vec![win(3)]),
    ];

    strip_pins(&mut snapshots, &[2, 3]);

    assert_eq!(snapshots.len(), 1);
    assert_eq!(snapshots[0].name, "Q(work)");
    assert_eq!(
        snapshots[0].tree.iter().flat_map(window_ids).collect::<Vec<_>>(),
        [1]
    );
}

#[test]
fn strip_pins_without_pins_changes_nothing() {
    let mut snapshots = vec![snapshot("Q(work)", vec![win(1), container("tabbed", vec![win(2)])])];
    strip_pins(&mut snapshots, &[]);
    assert_eq!(snapshots.len(), 1);
    assert_eq!(snapshots[0].tree.len(), 2);
    assert_eq!(collect_snapshot_ids(&snapshots), [1, 2]);
}

#[test]
fn strip_pins_drops_workspaces_that_were_empty() {
    let mut snapshots = vec![snapshot("Q(work)", vec![]), snapshot("A(work)", vec![win(4)])];
    strip_pins(&mut snapshots, &[9]);
    assert_eq!(snapshots.len(), 1);
    assert_eq!(snapshots[0].name, "A(work)");
}

#[test]
fn strip_pins_keeps_layouts_and_does_nothing_twice() {
    let mut snapshots = vec![snapshot(
        "Q(work)",
        vec![container(
            "tabbed",
            vec![win(1), container("splitv", vec![win(2), win(3)]), win(4)],
        )],
    )];
    strip_pins(&mut snapshots, &[1, 3]);
    let once = snapshots.clone();
    strip_pins(&mut snapshots, &[1, 3]);
    assert_eq!(collect_snapshot_ids(&once), [2, 4]);
    assert_eq!(collect_snapshot_ids(&snapshots), [2, 4]);
    match &snapshots[0].tree[0] {
        TreeNode::Container { layout, children } => {
            assert_eq!(layout, "tabbed");
            assert_eq!(children.len(), 2);
            assert!(matches!(&children[0], TreeNode::Container { layout, .. } if layout == "splitv"));
        }
        other => panic!("expected container, got {:?}", other),
    }
}

#[test]
fn collect_window_ids_goes_depth_first() {
    let tree = vec![
        win(5),
        container("splitv", vec![win(6), container("tabbed", vec![win(7), win(8)])]),
        win(9),
    ];
    assert_eq!(collect_window_ids(&tree), [5, 6, 7, 8, 9]);
    assert!(collect_window_ids(&[]).is_empty());
}

#[test]
fn splice_adds_after_what_the_workspace_holds() {
    let mut snapshots = vec![
        snapshot("Q(work)", vec![win(1)]),
        snapshot("A(work)", vec![win(2)]),
        snapshot("A(work)", vec![win(3)]),
    ];
    splice_snapshot(&mut snapshots, "A(work)", "tabbed", vec![win(4), win(5)]);
    assert_eq!(snapshots.len(), 3);
    assert_eq!(snapshots[1].layout, "splith");
    assert_eq!(collect_window_ids(&snapshots[1].tree), [2, 4, 5]);
    assert_eq!(collect_window_ids(&snapshots[2].tree), [3]);
}

#[test]
fn splice_makes_a_workspace_that_is_not_there() {
    let mut snapshots = vec![snapshot("Q(work)", vec![win(1)])];
    splice_snapshot(&mut snapshots, "Z(work)", "stacking", vec![win(4)]);
    assert_eq!(snapshots.len(), 2);
    assert_eq!(snapshots[1].name, "Z(work)");
    assert_eq!(snapshots[1].layout, "stacking");
    assert_eq!(collect_snapshot_ids(&snapshots), [1, 4]);
}
