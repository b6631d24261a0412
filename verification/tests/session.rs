use space::command::Command;
use space::dialogue::{Failure, File, Output, Reply, Request, Stop, Talk, Workspace};
use space::pins::Pin;
use space::screens::Screens;
use space::session::{Next, Session};
use space::snapshot::{collect_snapshot_ids, TreeNode, WorkspaceSnapshot};
use space::tree::{Layout, Node, NodeKind};

const DELL: &str = "Dell U3415W 1";
const LAPTOP: &str = "Sharp LQ156 Unknown";

/// A sway with two monitors, and state files, in memory.
struct World {
    /// Whether the laptop's monitor is connected.
    docked: bool,
    /// The workspace that each monitor shows.
    visible: [&'static str; 2],
    /// The workspaces: name, connector, windows; the first has the focus.
    workspaces: Vec<(&'static str, &'static str, Vec<i64>)>,
    /// Floating windows on the first workspace.
    floating: Vec<i64>,
    texts: Vec<(File, String)>,
    pins: Vec<Pin>,
    ice: Vec<(String, Vec<WorkspaceSnapshot>)>,
    choice: &'static str,
    refused: Option<&'static str>,
    unreachable: Option<&'static str>,
    ran: Vec<String>,
    notices: Vec<String>,
    printed: Vec<String>,
    menus: Vec<(String, String)>,
}

fn world() -> World {
    World {
        docked: true,
        visible: ["Q(main)", "A(work)"],
        workspaces: vec![
            ("Q(main)", "DP-2", vec![1, 2]),
            ("A(work)", "eDP-1", vec![3]),
        ],
        floating: vec![],
        texts: vec![(
            File::Assignments,
            format!("{{\"{}\": \"main\", \"{}\": \"work\"}}", DELL, LAPTOP),
        )],
        pins: vec![],
        ice: vec![],
        choice: "",
        refused: None,
        unreachable: None,
        ran: vec![],
        notices: vec![],
        printed: vec![],
        menus: vec![],
    }
}

fn node(id: i64, kind: NodeKind, name: &str, nodes: Vec<Node>) -> Node {
    Node {
        id,
        kind,
        layout: Layout::SplitH,
        name: Some(name.to_string()),
        app_id: None,
        pid: None,
        focused: false,
        nodes,
        floating_nodes: vec![],
    }
}

fn win(con_id: i64) -> TreeNode {
    TreeNode::Window {
        con_id,
        app_id: None,
        name: None,
        floating: false,
    }
}

fn stored(name: &str, ids: &[i64]) -> WorkspaceSnapshot {
    WorkspaceSnapshot {
        name: name.to_string(),
        layout: "tabbed".to_string(),
        tree: ids.iter().map(|id| win(*id)).collect(),
    }
}

impl World {
    fn text(&self, file: File) -> Option<&str> {
        self.texts.iter().find(|(f, _)| *f == file).map(|(_, text)| text.as_str())
    }

    fn tree(&self) -> Node {
        let mut workspaces = vec![];
        for (i, (name, _, windows)) in self.workspaces.iter().enumerate() {
            let nodes = windows
                .iter()
                .enumerate()
                .map(|(j, id)| Node {
                    pid: Some(1),
                    focused: i == 0 && j == 0,
                    ..node(*id, NodeKind::Con, "window", vec![])
                })
                .collect();
            let mut workspace = node(100 + i as i64, NodeKind::Workspace, name, nodes);
            workspace.focused = i == 0 && windows.is_empty();
            if i == 0 {
                workspace.floating_nodes = self
                    .floating
                    .iter()
                    .map(|id| Node {
                        pid: Some(1),
                        ..node(*id, NodeKind::FloatingCon, "floating", vec![])
                    })
                    .collect();
            }
            workspaces.push(workspace);
        }
        let output = node(90, NodeKind::Output, "DP-2", workspaces);
        node(91, NodeKind::Root, "root", vec![output])
    }

    fn output(&self, i: usize) -> Output {
        let (make, model, serial, name) = [
            ("Dell", "U3415W", "1", "DP-2"),
            ("Sharp", "LQ156", "Unknown", "eDP-1"),
        ][i];
        Output {
            make: make.to_string(),
            model: model.to_string(),
            serial: serial.to_string(),
            name: name.to_string(),
            active: i == 0 || self.docked,
            focused: i == 0,
            current_workspace: Some(self.visible[i].to_string()),
        }
    }

    fn reply(&mut self, request: Request) -> Reply {
        match request {
            Request::Outputs => Reply::Outputs(vec![self.output(0), self.output(1)]),
            Request::Workspaces => Reply::Workspaces(
                self.workspaces
                    .iter()
                    .map(|(name, output, _)| Workspace {
                        name: name.to_string(),
                        output: output.to_string(),
                    })
                    .collect(),
            ),
            Request::Tree => Reply::Tree(self.tree()),
            Request::Run(command) => {
                let reply = if self.unreachable.is_some_and(|c| command.starts_with(c)) {
                    Reply::Failed
                } else if self.refused.is_some_and(|c| command.starts_with(c)) {
                    Reply::Ran(vec![true, false])
                } else {
                    Reply::Ran(vec![true])
                };
                self.ran.push(command);
                reply
            }
            Request::Read(file) => match self.text(file) {
                Some(text) => Reply::Text(text.to_string()),
                None => Reply::Missing,
            },
            Request::Write(file, text) => {
                self.texts.retain(|(f, _)| *f != file);
                self.texts.push((file, text));
                Reply::Done
            }
            Request::Remove(file) => {
                self.texts.retain(|(f, _)| *f != file);
                Reply::Done
            }
            Request::ReadPins => Reply::Pins(self.pins.clone()),
            Request::WritePins(pins) => {
                self.pins = pins;
                Reply::Done
            }
            Request::ListIced => {
                Reply::Names(self.ice.iter().map(|(name, _)| name.clone()).collect())
            }
            Request::ReadIce(name) => match self.ice.iter().find(|(n, _)| *n == name) {
                Some((_, snapshots)) => Reply::Snapshots(snapshots.clone()),
                None => Reply::Missing,
            },
            Request::WriteIce(name, snapshots) => {
                self.ran.push(format!("store {}", name));
                self.ice.retain(|(n, _)| *n != name);
                self.ice.push((name, snapshots));
                Reply::Done
            }
            Request::RemoveIce(name) => {
                self.ran.push(format!("remove {}", name));
                self.ice.retain(|(n, _)| *n != name);
                Reply::Done
            }
            Request::Select { prompt, options } => {
                self.menus.push((prompt, options));
                Reply::Text(format!("{}\n", self.choice))
            }
            Request::Notify(message) => {
                self.notices.push(message);
                Reply::Failed
            }
            Request::Print(line) => {
                self.printed.push(line);
                Reply::Done
            }
        }
    }

    fn carry_out(&mut self, command: Command) -> Result<(), Failure> {
        let mut session = Session::new(command);
        loop {
            match session.next() {
                Next::Ask(request) => {
                    let reply = self.reply(request);
                    session.answer(reply);
                }
                Next::Done => return Ok(()),
                Next::Failed(failure) => return Err(failure),
            }
        }
    }

    fn shown(&self) -> String {
        self.text(File::Assignments).unwrap_or("").to_string()
    }
}

fn show(name: &str) -> Command {
    Command::Show {
        name: name.to_string(),
    }
}

fn pretty(dell: &str, laptop: &str) -> String {
    format!("{{\n  \"{}\": \"{}\",\n  \"{}\": \"{}\"\n}}", DELL, dell, LAPTOP, laptop)
}

#[test]
fn switch_goes_to_the_key_in_the_monitors_set() -> Result<(), Failure> {
    let mut w = world();
    w.carry_out(Command::Switch { key: 'e' })?;
    assert_eq!(w.ran, ["workspace \"E(main)\""]);
    Ok(())
}

#[test]
fn move_sends_the_window_to_the_key_in_the_monitors_set() -> Result<(), Failure> {
    let mut w = world();
    w.carry_out(Command::Move { key: '1' })?;
    assert_eq!(w.ran, ["move container to workspace \"1(main)\""]);
    Ok(())
}

#[test]
fn refused_command_is_a_failure() {
    let mut w = world();
    w.refused = Some("workspace");
    let failure = w.carry_out(Command::Switch { key: 'e' }).expect_err("refused");
    assert_eq!(failure.message(), "sway command failed: workspace \"E(main)\"");
    w.refused = None;
    w.unreachable = Some("workspace");
    let failure = w.carry_out(Command::Switch { key: 'e' }).expect_err("unreachable");
    assert!(matches!(failure, Failure::Request));
}

#[test]
fn new_monitor_claims_the_first_free_set_and_keeps_its_focus() -> Result<(), Failure> {
    let mut w = world();
    w.texts = vec![(File::Assignments, format!("{{\"{}\": \"main\"}}", LAPTOP))];
    w.workspaces.push(("Z(work)", "eDP-1", vec![]));
    w.carry_out(Command::Switch { key: 'a' })?;
    assert_eq!(w.shown(), pretty("work", "main"));
    assert_eq!(w.text(File::Sets), Some("work\nmain\nscratch\n"));
    assert_eq!(
        w.ran,
        [
            "workspace \"A(work)\"; move workspace to output \"DP-2\"",
            "workspace \"Z(work)\"; move workspace to output \"DP-2\"",
            "workspace \"Q(main)\"",
            "workspace \"A(work)\"",
        ]
    );
    Ok(())
}

#[test]
fn picking_a_set_of_another_monitor_swaps() -> Result<(), Failure> {
    let mut w = world();
    w.carry_out(show("work"))?;
    assert_eq!(w.shown(), pretty("work", "main"));
    assert_eq!(
        w.text(File::Last),
        Some("{\n  \"main\": \"Q(main)\",\n  \"work\": \"A(work)\"\n}")
    );
    assert_eq!(
        w.ran,
        [
            "workspace \"A(work)\"; move workspace to output \"DP-2\"",
            "workspace \"Q(main)\"; move workspace to output \"eDP-1\"",
            "focus output \"eDP-1\"; workspace \"Q(main)\"",
            "focus output \"DP-2\"; workspace \"A(work)\"",
        ]
    );
    assert!(w.ice.is_empty());
    Ok(())
}

#[test]
fn picking_any_other_set_ices_the_old_and_thaws_the_new() -> Result<(), Failure> {
    let mut w = world();
    w.ice = vec![("side.json".to_string(), vec![stored("E(side)", &[8, 9])])];
    w.texts.push((File::Last, "{\"side\": \"E(side)\"}".to_string()));
    w.carry_out(show("side"))?;
    assert_eq!(w.shown(), pretty("side", "work"));
    assert_eq!(w.text(File::Sets), Some("side\nmain\nwork\nscratch\n"));
    assert_eq!(
        w.ran,
        [
            "store main.json",
            "[con_id=1] move to workspace \"_\"",
            "[con_id=2] move to workspace \"_\"",
            "[con_id=8] move to workspace \"E(side)\"",
            "[con_id=9] move to workspace \"E(side)\"",
            "workspace \"E(side)\", layout tabbed",
            "remove side.json",
            "focus output \"DP-2\"; workspace \"E(side)\"",
        ]
    );
    assert_eq!(w.ice.len(), 1);
    assert_eq!(w.ice[0].0, "main.json");
    assert_eq!(w.ice[0].1[0].name, "Q(main)");
    assert_eq!(collect_snapshot_ids(&w.ice[0].1), [1, 2]);
    Ok(())
}

#[test]
fn set_never_visited_opens_at_its_a() -> Result<(), Failure> {
    let mut w = world();
    w.carry_out(show("new"))?;
    assert_eq!(
        w.ran.last().map(String::as_str),
        Some("focus output \"DP-2\"; workspace \"A(new)\"")
    );
    Ok(())
}

#[test]
fn set_of_a_disconnected_monitor_is_taken_over() -> Result<(), Failure> {
    let mut w = world();
    w.docked = false;
    w.carry_out(show("work"))?;
    assert_eq!(w.shown(), format!("{{\n  \"{}\": \"work\"\n}}", DELL));
    assert_eq!(w.ice[0].0, "main.json");
    Ok(())
}

#[test]
fn picking_the_set_already_shown_only_carries_pins() -> Result<(), Failure> {
    let mut w = world();
    w.pins = vec![Pin { con_id: 3, key: 'q' }, Pin { con_id: 77, key: 'w' }];
    let before = w.shown();
    w.carry_out(show("main"))?;
    assert_eq!(w.shown(), before);
    assert_eq!(w.pins, [Pin { con_id: 3, key: 'q' }]);
    assert_eq!(
        w.ran,
        [
            "[con_id=3] move container to workspace \"Q(main)\"",
            "[con_id=3] swap container with con_id 1",
        ]
    );
    Ok(())
}

#[test]
fn first_pinned_window_is_placed_last() -> Result<(), Failure> {
    let mut w = world();
    w.pins = vec![Pin { con_id: 1, key: 'q' }, Pin { con_id: 2, key: 'q' }];
    w.carry_out(show("main"))?;
    assert_eq!(
        w.ran,
        [
            "[con_id=2] move container to workspace \"Q(main)\"",
            "[con_id=2] swap container with con_id 1",
            "[con_id=1] move container to workspace \"Q(main)\"",
        ]
    );
    Ok(())
}

#[test]
fn set_menu_offers_what_is_left_but_for_the_set_shown() -> Result<(), Failure> {
    let mut w = world();
    w.texts.push((File::Sets, "main\ngone\nwork\nside\n".to_string()));
    w.texts.push((File::Last, "{\"gone\": \"A(gone)\", \"side\": \"A(side)\"}".to_string()));
    w.ice = vec![("side.json".to_string(), vec![stored("A(side)", &[8])])];
    w.carry_out(Command::SetMenu)?;
    assert_eq!(w.menus, [("Space set".to_string(), "work\nside".to_string())]);
    assert_eq!(w.text(File::Sets), Some("main\nwork\nside\n"));
    assert_eq!(w.text(File::Last), Some("{\n  \"side\": \"A(side)\"\n}"));
    assert!(w.ran.is_empty());

    w.choice = " work ";
    w.carry_out(Command::SetMenu)?;
    assert_eq!(w.shown(), pretty("work", "main"));
    Ok(())
}

#[test]
fn ice_parks_what_it_stores_and_thaw_brings_it_back() -> Result<(), Failure> {
    let mut w = world();
    w.pins = vec![Pin { con_id: 2, key: 'q' }];
    w.carry_out(Command::Ice { set: None })?;
    assert_eq!(w.ran, ["store main.json", "[con_id=1] move to workspace \"_\""]);
    assert_eq!(w.notices, ["Iced: main (1 windows)"]);

    w.ran.clear();
    w.carry_out(Command::Thaw { set: None })?;
    assert_eq!(
        w.ran,
        [
            "[con_id=1] move to workspace \"Q(main)\"",
            "workspace \"Q(main)\", layout splith",
            "remove main.json",
        ]
    );
    assert_eq!(w.notices[1], "Thawed: main (1/1 windows)");
    assert!(w.ice.is_empty());
    Ok(())
}

#[test]
fn ice_of_a_set_without_windows_stores_nothing() -> Result<(), Failure> {
    let mut w = world();
    w.carry_out(Command::Ice {
        set: Some("side".to_string()),
    })?;
    assert!(w.ran.is_empty());
    assert_eq!(w.notices, ["Ice: No windows in set 'side'"]);
    Ok(())
}

#[test]
fn thaw_of_a_set_that_is_not_frozen_says_so() -> Result<(), Failure> {
    let mut w = world();
    w.carry_out(Command::Thaw {
        set: Some("side".to_string()),
    })?;
    assert_eq!(w.notices, ["No iced set: side"]);
    Ok(())
}

#[test]
fn thaw_counts_the_windows_that_went_and_floats_them_again() -> Result<(), Failure> {
    let mut w = world();
    let floating = TreeNode::Window {
        con_id: 5,
        app_id: None,
        name: None,
        floating: true,
    };
    let inner = TreeNode::Container {
        layout: "tabbed".to_string(),
        children: vec![win(6), win(7)],
    };
    let outer = TreeNode::Container {
        layout: "splitv".to_string(),
        children: vec![win(4), inner, win(8)],
    };
    w.ice = vec![(
        "side.json".to_string(),
        vec![WorkspaceSnapshot {
            name: "E(side)".to_string(),
            layout: "splith".to_string(),
            tree: vec![floating, outer],
        }],
    )];
    w.unreachable = Some("[con_id=7]");
    w.carry_out(Command::Thaw {
        set: Some("side".to_string()),
    })?;
    assert_eq!(
        w.ran,
        [
            "[con_id=5] move to workspace \"E(side)\"",
            "[con_id=5] floating enable",
            "[con_id=4] move to workspace \"E(side)\"",
            "[con_id=6] move to workspace \"E(side)\"",
            "layout tabbed",
            "[con_id=7] move to workspace \"E(side)\"",
            "[con_id=8] move to workspace \"E(side)\"",
            "workspace \"E(side)\", layout splith",
            "remove side.json",
        ]
    );
    assert_eq!(w.notices, ["Thawed: side (4/5 windows)"]);
    Ok(())
}

#[test]
fn ice_menu_thaws_the_choice() -> Result<(), Failure> {
    let mut w = world();
    w.carry_out(Command::IceMenu)?;
    assert_eq!(w.notices, ["No iced sets"]);
    assert!(w.menus.is_empty());

    w.ice = vec![("side.json".to_string(), vec![stored("A(side)", &[8])])];
    w.carry_out(Command::IceMenu)?;
    assert_eq!(w.menus, [("Thaw set".to_string(), "side".to_string())]);
    assert_eq!(w.ice.len(), 1);

    w.choice = "side";
    w.carry_out(Command::IceMenu)?;
    assert_eq!(w.notices[1], "Thawed: side (1/1 windows)");
    assert!(w.ice.is_empty());

    w.ice = vec![("side.json".to_string(), vec![stored("A(side)", &[8])])];
    w.choice = "other";
    w.carry_out(Command::IceMenu)?;
    assert_eq!(w.notices[2], "Failed to thaw: other");
    Ok(())
}

#[test]
fn deliver_moves_every_window_of_the_workspace() -> Result<(), Failure> {
    let mut w = world();
    w.choice = "work";
    w.carry_out(Command::MoveToSet)?;
    assert_eq!(w.menus, [("Move to set".to_string(), "main\nwork".to_string())]);
    assert_eq!(w.text(File::Pending), Some("work"));
    assert_eq!(w.text(File::Sets), Some("work\nmain\n"));
    assert_eq!(w.ran, ["mode deliver"]);

    w.ran.clear();
    w.carry_out(Command::Deliver { key: 'z' })?;
    assert_eq!(
        w.ran,
        [
            "[con_id=1] move to workspace \"Z(work)\"",
            "[con_id=2] move to workspace \"Z(work)\"",
            "mode default",
        ]
    );
    assert_eq!(w.notices, ["Moved 2 windows to Z(work)"]);
    assert_eq!(w.text(File::Pending), None);

    w.ran.clear();
    w.carry_out(Command::Deliver { key: 'z' })?;
    assert_eq!(w.notices[1], "No pending move target");
    assert_eq!(w.ran, ["mode default"]);
    Ok(())
}

#[test]
fn deliver_to_a_frozen_set_parks_and_stores() -> Result<(), Failure> {
    let mut w = world();
    w.ice = vec![("side.json".to_string(), vec![stored("Z(side)", &[8])])];
    w.texts.push((File::Pending, "side".to_string()));
    w.carry_out(Command::Deliver { key: 'z' })?;
    assert_eq!(
        w.ran,
        [
            "store side.json",
            "[con_id=1] move to workspace \"_\"",
            "[con_id=2] move to workspace \"_\"",
            "mode default",
        ]
    );
    assert_eq!(w.notices, ["Moved 2 windows to Z(side) (iced)"]);
    assert_eq!(collect_snapshot_ids(&w.ice[0].1), [8, 1, 2]);
    assert_eq!(w.ice[0].1[0].layout, "tabbed");
    Ok(())
}

#[test]
fn deliver_from_an_empty_workspace_only_clears_the_target() -> Result<(), Failure> {
    let mut w = world();
    w.workspaces[0].2.clear();
    w.texts.push((File::Pending, "work".to_string()));
    w.carry_out(Command::Deliver { key: 'z' })?;
    assert_eq!(w.ran, ["mode default"]);
    assert!(w.notices.is_empty());
    assert_eq!(w.text(File::Pending), None);
    Ok(())
}

#[test]
fn pin_toggles_without_a_key_and_moves_with_one() -> Result<(), Failure> {
    let mut w = world();
    w.carry_out(Command::Pin { key: None })?;
    assert_eq!(w.pins, [Pin { con_id: 1, key: 'Q' }]);
    assert_eq!(w.notices, ["Pinned to Q"]);
    w.carry_out(Command::Pin { key: Some('e') })?;
    assert_eq!(w.pins, [Pin { con_id: 1, key: 'e' }]);
    assert_eq!(w.notices[1], "Pinned to E");
    assert_eq!(
        w.ran,
        [
            "[con_id=1] move container to workspace \"Q(main)\"",
            "[con_id=1] move container to workspace \"E(main)\"",
        ]
    );
    w.carry_out(Command::Pin { key: None })?;
    assert!(w.pins.is_empty());
    assert_eq!(w.notices[2], "Unpinned");
    Ok(())
}

#[test]
fn unpin_releases_the_focused_window() -> Result<(), Failure> {
    let mut w = world();
    w.pins = vec![Pin { con_id: 1, key: 'q' }, Pin { con_id: 3, key: 'w' }];
    w.carry_out(Command::Unpin)?;
    assert_eq!(w.pins, [Pin { con_id: 3, key: 'w' }]);
    assert!(w.ran.is_empty());
    Ok(())
}

#[test]
fn pinning_needs_a_window_and_a_key() {
    let mut w = world();
    w.workspaces[0].2.clear();
    let failure = w.carry_out(Command::Pin { key: None }).expect_err("no window");
    assert_eq!(failure.message(), "no focused window to pin");
    let failure = w.carry_out(Command::Unpin).expect_err("no window");
    assert_eq!(failure.message(), "no focused window to unpin");

    let mut w = world();
    w.workspaces[0].0 = "foo(bar)(main)";
    let failure = w.carry_out(Command::Pin { key: None }).expect_err("no key");
    assert_eq!(failure.message(), "focused workspace has no single-character key");
    assert!(w.pins.is_empty());
}

#[test]
fn current_and_list_iced_only_print() -> Result<(), Failure> {
    let mut w = world();
    w.texts.clear();
    w.ice = vec![
        ("side.json".to_string(), vec![]),
        ("b.c.json".to_string(), vec![]),
    ];
    w.carry_out(Command::Current)?;
    w.carry_out(Command::ListIced)?;
    assert_eq!(w.printed, ["main", "side", "b.c"]);
    assert!(w.ran.is_empty());
    assert!(w.texts.is_empty());
    Ok(())
}

#[test]
fn nothing_goes_without_a_focused_output() {
    let mut session = Session::new(Command::Current);
    assert!(matches!(session.next(), Next::Ask(Request::Outputs)));
    session.answer(Reply::Outputs(vec![]));
    assert!(matches!(session.next(), Next::Ask(Request::Read(File::Assignments))));
    session.answer(Reply::Missing);
    match session.next() {
        Next::Failed(failure) => assert_eq!(failure.message(), "no focused output"),
        other => panic!("expected a failure, got {:?}", other),
    }
}

#[test]
fn finished_session_stays_finished() {
    let mut session = Session::new(Command::ListIced);
    assert!(matches!(session.next(), Next::Ask(Request::ListIced)));
    assert!(matches!(session.next(), Next::Ask(Request::ListIced)));
    session.answer(Reply::Missing);
    assert!(matches!(session.next(), Next::Done));
    session.answer(Reply::Failed);
    assert!(matches!(session.next(), Next::Done));
}

#[test]
fn corrupt_assignments_stop_every_change() {
    let mut w = world();
    w.texts = vec![(File::Assignments, "not json".to_string())];
    let failure = w.carry_out(show("work")).expect_err("corrupt");
    assert_eq!(failure.message(), "failed to parse monitor_sets.json");
    assert_eq!(w.shown(), "not json");
    assert!(w.ran.is_empty());
}

#[test]
fn disconnected_monitor_is_named_in_the_failure() {
    let replies = vec![Reply::Outputs(vec![]), Reply::Missing];
    let mut talk = Talk::new(&replies);
    let screens = match Screens::load(&mut talk) {
        Ok(screens) => screens,
        Err(stop) => panic!("expected screens, got {:?}", stop),
    };
    match screens.by_id(DELL) {
        Err(Stop::Failed(failure)) => {
            assert_eq!(failure.message(), "output Dell U3415W 1 is not connected")
        }
        other => panic!("expected a failure, got {:?}", other),
    }
}

#[test]
fn menu_offers_the_set_left_last_first() -> Result<(), Failure> {
    let mut w = world();
    w.texts.push((File::Sets, "main\nside\nwork\n".to_string()));
    w.ice = vec![("side.json".to_string(), vec![stored("A(side)", &[8])])];
    w.carry_out(show("work"))?;
    w.carry_out(Command::SetMenu)?;
    assert_eq!(w.menus, [("Space set".to_string(), "main\nside".to_string())]);
    Ok(())
}

#[test]
fn floating_windows_are_frozen_thawed_and_delivered_too() -> Result<(), Failure> {
    let mut w = world();
    w.workspaces[0].2.clear();
    w.floating = vec![7];
    w.carry_out(Command::Ice { set: None })?;
    assert_eq!(w.ran, ["store main.json", "[con_id=7] move to workspace \"_\""]);

    w.ran.clear();
    w.carry_out(Command::Thaw { set: None })?;
    assert_eq!(
        w.ran,
        [
            "[con_id=7] move to workspace \"Q(main)\"",
            "[con_id=7] floating enable",
            "workspace \"Q(main)\", layout splith",
            "remove main.json",
        ]
    );

    w.ran.clear();
    w.texts.push((File::Pending, "work".to_string()));
    w.carry_out(Command::Deliver { key: 'z' })?;
    assert_eq!(w.ran, ["[con_id=7] move to workspace \"Z(work)\"", "mode default"]);
    Ok(())
}

#[test]
fn thaw_counts_moves_and_nothing_else() -> Result<(), Failure> {
    let mut w = world();
    let tabbed = TreeNode::Container {
        layout: "tabbed".to_string(),
        children: vec![win(6), TreeNode::Container {
            layout: "tabbed".to_string(),
            children: vec![win(7), win(8)],
        }],
    };
    w.ice = vec![(
        "side.json".to_string(),
        vec![WorkspaceSnapshot {
            name: "E(side)".to_string(),
            layout: "splith".to_string(),
            tree: vec![tabbed],
        }],
    )];
    w.unreachable = Some("layout tabbed");
    w.carry_out(Command::Thaw {
        set: Some("side".to_string()),
    })?;
    assert!(w.ran.iter().any(|command| command == "layout tabbed"));
    assert_eq!(w.notices, ["Thawed: side (3/3 windows)"]);
    Ok(())
}

#[test]
fn set_shown_twice_by_hand_is_still_stored_before_it_is_parked() -> Result<(), Failure> {
    let mut w = world();
    w.texts = vec![(
        File::Assignments,
        format!("{{\"{}\": \"main\", \"{}\": \"main\"}}", DELL, LAPTOP),
    )];
    w.carry_out(show("side"))?;
    assert_eq!(
        w.ran[..3],
        [
            "store main.json",
            "[con_id=1] move to workspace \"_\"",
            "[con_id=2] move to workspace \"_\"",
        ]
    );
    Ok(())
}

#[test]
fn frozen_set_that_names_parking_is_thawed_there() -> Result<(), Failure> {
    let mut w = world();
    w.ice = vec![("side.json".to_string(), vec![stored("_", &[8])])];
    w.carry_out(Command::Thaw {
        set: Some("side".to_string()),
    })?;
    assert_eq!(w.ran[0], "[con_id=8] move to workspace \"_\"");
    Ok(())
}
