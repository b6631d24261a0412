use space::assignments::{Assignments, Change};
use std::collections::BTreeMap;

const DELL: &str = "Dell Inc. DELL U3415W PXF798BL0E4L";
const BENQ: &str = "BNQ BenQ GL2780 ETXAK01950SL0";
const LAPTOP: &str = "Sharp Corporation LQ156M1JW03 Unknown";

fn strings(items: &[&str]) -> Vec<String> {
    items.iter().map(|s| s.to_string()).collect()
}

fn known() -> Vec<String> {
    strings(&["main", "work", "scratch"])
}

fn with(pairs: &[(&str, &str)]) -> Assignments {
    let mut a = Assignments::default();
    for (monitor, set) in pairs {
        a.assign(monitor, set);
    }
    a
}

#[test]
fn resolve_returns_existing_assignment() {
    let a = with(&[(DELL, "work")]);
    assert_eq!(a.resolve(DELL, &strings(&[DELL]), &known()), "work");
}

#[test]
fn resolve_keeps_assignment_to_unknown_set() {
    let a = with(&[(DELL, "adhoc")]);
    assert_eq!(a.resolve(DELL, &strings(&[DELL]), &known()), "adhoc");
}

#[test]
fn resolve_new_monitor_gets_first_known_set() {
    let a = Assignments::default();
    assert_eq!(a.resolve(DELL, &strings(&[DELL]), &known()), "main");
}

#[test]
fn resolve_new_monitor_skips_sets_on_other_connected_monitors() {
    let a = with(&[(DELL, "main"), (BENQ, "work")]);
    let connected = strings(&[DELL, BENQ, LAPTOP]);
    assert_eq!(a.resolve(LAPTOP, &connected, &known()), "scratch");
}

#[test]
fn resolve_new_monitor_may_take_set_of_disconnected_monitor() {
    let a = with(&[(BENQ, "main")]);
    assert_eq!(a.resolve(DELL, &strings(&[DELL]), &known()), "main");
}

#[test]
fn resolve_invents_set_when_all_known_are_taken() {
    let a = with(&[(DELL, "main"), (BENQ, "work")]);
    let connected = strings(&[DELL, BENQ, LAPTOP]);
    let known = strings(&["main", "work"]);
    assert_eq!(a.resolve(LAPTOP, &connected, &known), "main2");
}

#[test]
fn resolve_invented_set_avoids_known_names() {
    let a = with(&[(DELL, "main"), (BENQ, "main2")]);
    let connected = strings(&[DELL, BENQ, LAPTOP]);
    let known = strings(&["main", "main2"]);
    assert_eq!(a.resolve(LAPTOP, &connected, &known), "main3");
}

#[test]
fn resolve_with_no_known_sets_uses_main() {
    let a = Assignments::default();
    assert_eq!(a.resolve(DELL, &strings(&[DELL]), &[]), "main");
}

#[test]
fn resolve_invented_set_avoids_unknown_sets_on_other_monitors() {
    let a = with(&[(DELL, "main"), (BENQ, "main2")]);
    let connected = strings(&[DELL, BENQ, LAPTOP]);
    assert_eq!(a.resolve(LAPTOP, &connected, &strings(&["main"])), "main3");
}

#[test]
fn plan_same_set_is_unchanged() {
    let a = with(&[(DELL, "work")]);
    let change = a.plan(DELL, "work", "work", &strings(&[DELL]));
    assert_eq!(change, Change::Unchanged);
}

#[test]
fn plan_set_on_other_connected_monitor_swaps() {
    let a = with(&[(DELL, "main"), (BENQ, "work")]);
    let change = a.plan(DELL, "main", "work", &strings(&[DELL, BENQ]));
    assert_eq!(
        change,
        Change::Swap {
            monitor: BENQ.to_string(),
            old: "main".to_string(),
        }
    );
}

#[test]
fn plan_set_on_disconnected_monitor_replaces() {
    let a = with(&[(DELL, "main"), (BENQ, "work")]);
    let change = a.plan(DELL, "main", "work", &strings(&[DELL]));
    assert_eq!(
        change,
        Change::Replace {
            old: "main".to_string(),
        }
    );
}

#[test]
fn plan_unshown_set_replaces() {
    let a = with(&[(DELL, "main"), (BENQ, "work")]);
    let change = a.plan(DELL, "main", "scratch", &strings(&[DELL, BENQ]));
    assert_eq!(
        change,
        Change::Replace {
            old: "main".to_string(),
        }
    );
}

#[test]
fn assign_takes_set_off_other_monitor() {
    let mut a = with(&[(BENQ, "work")]);
    a.assign(DELL, "work");
    assert_eq!(a.get(DELL), Some("work"));
    assert_eq!(a.get(BENQ), None);
}

#[test]
fn assign_replaces_monitor_set() {
    let mut a = with(&[(DELL, "main")]);
    a.assign(DELL, "work");
    assert_eq!(a.get(DELL), Some("work"));
}

#[test]
fn swap_leaves_each_set_on_one_monitor() {
    let mut a = with(&[(DELL, "main"), (BENQ, "work")]);
    a.assign(DELL, "work");
    a.assign(BENQ, "main");
    assert_eq!(a, with(&[(DELL, "work"), (BENQ, "main")]));
}

#[test]
fn serializes_as_plain_object() -> Result<(), serde_json::Error> {
    let a = with(&[(DELL, "work"), (LAPTOP, "main")]);
    let plain: BTreeMap<String, String> = serde_json::from_str(&a.to_json())?;
    let json = serde_json::to_string(&plain)?;
    assert_eq!(json, format!(r#"{{"{DELL}":"work","{LAPTOP}":"main"}}"#));
    assert_eq!(Assignments::from_json(&json)?, a);
    Ok(())
}

#[test]
fn equality_ignores_the_order_of_assigning() {
    let a = with(&[(DELL, "work"), (BENQ, "main"), (LAPTOP, "scratch")]);
    let b = with(&[(LAPTOP, "scratch"), (BENQ, "main"), (DELL, "work")]);
    assert_eq!(a, b);
    assert_ne!(a, with(&[(DELL, "work"), (BENQ, "main")]));
    let keys: Vec<&str> = a.entries().iter().map(|(m, _)| m.as_str()).collect();
    assert_eq!(keys, [BENQ, DELL, LAPTOP]);
}

#[test]
fn assigning_leaves_other_monitors_alone() {
    let mut a = with(&[(DELL, "work"), (BENQ, "main")]);
    a.assign(LAPTOP, "scratch");
    assert_eq!(a.get(DELL), Some("work"));
    assert_eq!(a.get(BENQ), Some("main"));
    assert_eq!(a.get(LAPTOP), Some("scratch"));
}

#[test]
fn swapping_back_restores_the_assignments() {
    let a = with(&[(DELL, "main"), (BENQ, "work"), (LAPTOP, "scratch")]);
    let mut b = a.clone();
    b.assign(DELL, "work");
    b.assign(BENQ, "main");
    assert_eq!(
        b.plan(DELL, "work", "main", &strings(&[DELL, BENQ, LAPTOP])),
        Change::Swap {
            monitor: BENQ.to_string(),
            old: "work".to_string(),
        }
    );
    b.assign(DELL, "main");
    b.assign(BENQ, "work");
    assert_eq!(a, b);
}

#[test]
fn invented_sets_count_past_nine() {
    let mut a = Assignments::default();
    let mut connected = Vec::new();
    for n in 1..=11 {
        let monitor = format!("monitor {n}");
        let set = if n == 1 { "main".to_string() } else { format!("main{n}") };
        a.assign(&monitor, &set);
        connected.push(monitor);
    }
    connected.push(DELL.to_string());
    assert_eq!(a.resolve(DELL, &connected, &[]), "main12");
}

#[test]
fn stored_assignments_read_back() -> Result<(), serde_json::Error> {
    let a = with(&[("quote \" back \\ tab \t", "gro\u{df}e\n"), (DELL, "")]);
    assert_eq!(Assignments::from_json(&a.to_json())?, a);
    assert_eq!(
        with(&[(DELL, "work")]).to_json(),
        format!("{{\n  \"{DELL}\": \"work\"\n}}")
    );
    assert_eq!(Assignments::default().to_json(), "{}");
    Ok(())
}

#[test]
fn corrupt_assignments_are_rejected() {
    assert!(Assignments::from_json("not json").is_err());
    assert!(Assignments::from_json("[]").is_err());
    assert!(Assignments::from_json(r#"{"a": 1}"#).is_err());
}

#[test]
fn hand_written_assignments_may_show_a_set_twice() -> Result<(), serde_json::Error> {
    let a = Assignments::from_json(r#"{"b": "work", "a": "work", "b": "main", "c": "work"}"#)?;
    assert_eq!(a.get("a"), Some("work"));
    assert_eq!(a.get("b"), Some("main"));
    assert_eq!(a.get("c"), Some("work"));
    let mut b = a.clone();
    b.assign("d", "work");
    assert_eq!(b, with(&[("b", "main"), ("d", "work")]));
    Ok(())
}

#[test]
fn entries_are_in_the_order_of_the_identifiers() {
    let mut a = Assignments::default();
    a.assign("b", "main");
    a.assign("c", "work");
    a.assign("a", "scratch");
    let monitors: Vec<&str> = a.entries().iter().map(|(monitor, _)| monitor.as_str()).collect();
    assert_eq!(monitors, ["a", "b", "c"]);
}
