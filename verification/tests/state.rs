use space::assignments::Assignments;
use space::dialogue::{Failure, File, Reply, Request, Stop, Talk};
use space::pins::Pin;
use space::snapshot::{TreeNode, WorkspaceSnapshot};
use space::state;

/// State files kept in memory.
#[derive(Default)]
struct Disk {
    texts: Vec<(File, String)>,
    pins: Option<Vec<Pin>>,
    ice: Vec<(String, Vec<WorkspaceSnapshot>)>,
    unreadable: bool,
}

impl Disk {
    fn write(&mut self, file: File, text: &str) {
        self.texts.retain(|(f, _)| *f != file);
        self.texts.push((file, text.to_string()));
    }

    fn text(&self, file: File) -> Option<&str> {
        self.texts.iter().find(|(f, _)| *f == file).map(|(_, text)| text.as_str())
    }

    fn reply(&mut self, request: Request) -> Reply {
        if self.unreadable {
            return Reply::Failed;
        }
        match request {
            Request::Read(file) => match self.text(file) {
                Some(text) => Reply::Text(text.to_string()),
                None => Reply::Missing,
            },
            Request::Write(file, text) => {
                self.write(file, &text);
                Reply::Done
            }
            Request::Remove(file) => {
                self.texts.retain(|(f, _)| *f != file);
                Reply::Done
            }
            Request::ReadPins => match &self.pins {
                Some(pins) => Reply::Pins(pins.clone()),
                None => Reply::Missing,
            },
            Request::WritePins(pins) => {
                self.pins = Some(pins);
                Reply::Done
            }
            Request::ListIced => {
                Reply::Names(self.ice.iter().map(|(name, _)| name.clone()).collect())
            }
            Request::ReadIce(name) => match self.ice.iter().find(|(n, _)| *n == name) {
                Some((_, snapshots)) => Reply::Snapshots(snapshots.clone()),
                None => Reply::Missing,
            },
            Request::WriteIce(name, snapshots) => {
                self.ice.retain(|(n, _)| *n != name);
                self.ice.push((name, snapshots));
                Reply::Done
            }
            Request::RemoveIce(name) => {
                self.ice.retain(|(n, _)| *n != name);
                Reply::Done
            }
            other => panic!("not a state file: {:?}", other),
        }
    }

    /// Runs an operation until it comes to its end.
    fn run<T>(
        &mut self,
        operation: impl Fn(&mut Talk<'_>) -> Result<T, Stop>,
    ) -> Result<T, Failure> {
        let mut replies = vec![];
        loop {
            let mut talk = Talk::new(&replies);
            match operation(&mut talk) {
                Ok(value) => return Ok(value),
                Err(Stop::Failed(failure)) => return Err(failure),
                Err(Stop::Waiting) => {
                    let request = talk.last_request().expect("a request to wait for");
                    let reply = self.reply(request);
                    replies.push(reply);
                }
            }
        }
    }
}

#[test]
fn state_without_assignments_file_is_empty() -> Result<(), Failure> {
    let mut disk = Disk::default();
    assert!(disk.run(state::assignments)? == Assignments::default());
    Ok(())
}

#[test]
fn state_round_trips_assignments() -> Result<(), Failure> {
    let mut disk = Disk::default();
    let mut a = Assignments::default();
    a.assign("Dell Inc. DELL U3415W PXF798BL0E4L", "work");
    disk.run(|talk| state::save_assignments(talk, &a))?;
    assert!(disk.run(state::assignments)? == a);
    Ok(())
}

#[test]
fn state_rejects_corrupt_assignments_file() {
    let mut disk = Disk::default();
    disk.write(File::Assignments, "not json");
    let err = match disk.run(state::assignments) {
        Ok(a) => panic!("parsed corrupt file as {:?}", a.entries()),
        Err(e) => e.message(),
    };
    assert!(err.contains("monitor_sets.json"), "{}", err);
}

#[test]
fn touch_set_moves_to_front_once() -> Result<(), Failure> {
    let mut disk = Disk::default();
    disk.run(|talk| state::touch_set(talk, "adhoc"))?;
    disk.run(|talk| state::touch_set(talk, "adhoc"))?;
    disk.run(|talk| state::touch_set(talk, "work"))?;
    assert_eq!(disk.run(state::list_sets)?, ["work", "adhoc", "main", "scratch"]);
    Ok(())
}

#[test]
fn remember_workspace_ignores_foreign_workspace() -> Result<(), Failure> {
    let mut disk = Disk::default();
    disk.run(|talk| state::remember_workspace(talk, "work", Some("Q(work)")))?;
    disk.run(|talk| state::remember_workspace(talk, "work", Some("S(main)")))?;
    disk.run(|talk| state::remember_workspace(talk, "work", None))?;
    assert_eq!(
        disk.run(|talk| state::last_workspace(talk, "work"))?.as_deref(),
        Some("Q(work)")
    );
    Ok(())
}

#[test]
fn unreadable_files_fall_back_but_for_assignments() -> Result<(), Failure> {
    let mut disk = Disk {
        unreadable: true,
        ..Disk::default()
    };
    assert_eq!(disk.run(state::list_sets)?, ["main", "work", "scratch"]);
    assert!(disk.run(state::last_workspaces)?.entries().is_empty());
    assert!(disk.run(state::pins)?.is_empty());
    assert_eq!(disk.run(state::get_pending_target)?, None);
    assert!(matches!(disk.run(state::assignments), Err(Failure::Request)));
    assert!(matches!(disk.run(state::list_iced), Err(Failure::Request)));
    Ok(())
}

#[test]
fn corrupt_record_of_last_workspaces_is_dropped() -> Result<(), Failure> {
    let mut disk = Disk::default();
    disk.write(File::Last, "{");
    assert_eq!(disk.run(|talk| state::last_workspace(talk, "work"))?, None);
    disk.run(|talk| state::remember_workspace(talk, "work", Some("Q(work)")))?;
    assert_eq!(disk.text(File::Last), Some("{\n  \"work\": \"Q(work)\"\n}"));
    Ok(())
}

#[test]
fn pending_target_is_kept_until_cleared() -> Result<(), Failure> {
    let mut disk = Disk::default();
    assert_eq!(disk.run(state::get_pending_target)?, None);
    disk.run(|talk| state::set_pending_target(talk, "work"))?;
    assert_eq!(disk.run(state::get_pending_target)?.as_deref(), Some("work"));
    disk.write(File::Pending, " by hand \n");
    assert_eq!(disk.run(state::get_pending_target)?.as_deref(), Some("by hand"));
    disk.run(state::clear_pending_target)?;
    assert_eq!(disk.run(state::get_pending_target)?, None);
    Ok(())
}

#[test]
fn frozen_sets_are_kept_by_name() -> Result<(), Failure> {
    let mut disk = Disk::default();
    let snapshot = WorkspaceSnapshot {
        name: "Q(work)".to_string(),
        layout: "splith".to_string(),
        tree: vec![TreeNode::Window {
            con_id: 7,
            app_id: None,
            name: None,
            floating: false,
        }],
    };
    disk.run(|talk| state::save_ice(talk, "work", vec![snapshot.clone()]))?;
    assert_eq!(disk.run(state::list_iced)?, ["work"]);
    let names = disk.run(|talk| {
        let stored = state::load_ice(talk, "work")?;
        Ok(stored.iter().map(|s| s.name.clone()).collect::<Vec<_>>())
    })?;
    assert_eq!(names, ["Q(work)"]);
    disk.run(|talk| state::remove_ice(talk, "work"))?;
    assert!(disk.run(state::list_iced)?.is_empty());
    let gone = disk.run(|talk| state::load_ice(talk, "work").map(|stored| stored.len()));
    assert!(matches!(gone, Err(Failure::Request)));
    Ok(())
}

#[test]
fn pins_are_kept_in_order() -> Result<(), Failure> {
    let mut disk = Disk::default();
    assert!(disk.run(state::pins)?.is_empty());
    let pins = vec![Pin { con_id: 7, key: 'q' }, Pin { con_id: 3, key: 'A' }];
    disk.run(|talk| state::save_pins(talk, pins.clone()))?;
    assert_eq!(disk.run(state::pins)?, pins);
    Ok(())
}

#[test]
fn unexpected_reply_is_a_failure() {
    let replies = vec![Reply::Done];
    let mut talk = Talk::new(&replies);
    assert!(matches!(
        state::assignments(&mut talk),
        Err(Stop::Failed(Failure::Unexpected))
    ));
}
