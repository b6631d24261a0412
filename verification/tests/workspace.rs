use space::workspace::{
    monitor_id, visible_or_home, workspace_belongs_to_set, workspace_key, workspace_name,
    PARKING_WORKSPACE,
};

#[test]
fn monitor_id_matches_sway_identifier() {
    assert_eq!(
        monitor_id("Sharp Corporation", "LQ156M1JW03", "Unknown"),
        "Sharp Corporation LQ156M1JW03 Unknown"
    );
}

#[test]
fn workspace_name_uppercases_key() {
    assert_eq!(workspace_name('q', "work"), "Q(work)");
}

#[test]
fn workspace_name_leaves_other_keys() {
    assert_eq!(workspace_name('Q', "work"), "Q(work)");
    assert_eq!(workspace_name('1', "project"), "1(project)");
    assert_eq!(workspace_name('\u{e4}', "work"), "\u{e4}(work)");
}

#[test]
fn uppercase_agrees_with_std() {
    for n in 0..0x300u32 {
        if let Some(c) = char::from_u32(n) {
            assert_eq!(workspace_name(c, ""), format!("{}()", c.to_ascii_uppercase()));
        }
    }
}

#[test]
fn workspace_membership_reads_suffix() {
    assert!(workspace_belongs_to_set("Q(work)", "work"));
    assert!(workspace_belongs_to_set("foo(bar)(main)", "main"));
    assert!(!workspace_belongs_to_set("Q(work)", "main"));
    assert!(!workspace_belongs_to_set("(work)", "work"));
    assert!(!workspace_belongs_to_set("Q(homework)", "work"));
    assert!(!workspace_belongs_to_set("_", "work"));
}

#[test]
fn parking_belongs_to_no_set() {
    assert!(!workspace_belongs_to_set(PARKING_WORKSPACE, ""));
    assert!(!workspace_belongs_to_set(PARKING_WORKSPACE, "_"));
}

#[test]
fn named_workspace_belongs_and_has_its_key() {
    let name = workspace_name('z', "a(b)");
    assert!(workspace_belongs_to_set(&name, "a(b)"));
    assert_eq!(workspace_key(&name, "a(b)"), Some('Z'));
}

#[test]
fn workspace_key_reads_single_character_prefix() {
    assert_eq!(workspace_key("Z(work)", "work"), Some('Z'));
    assert_eq!(workspace_key("foo(bar)(work)", "work"), None);
    assert_eq!(workspace_key("Z(work)", "main"), None);
    assert_eq!(workspace_key("_", "work"), None);
}

#[test]
fn workspace_without_key_has_none() {
    assert_eq!(workspace_key("(work)", "work"), None);
    assert_eq!(workspace_key("", "work"), None);
    assert_eq!(workspace_key("\u{1f600}(work)", "work"), Some('\u{1f600}'));
}

#[test]
fn visible_or_home_keeps_inherited_workspace_of_set() {
    assert_eq!(
        visible_or_home(Some("S(work)"), Some("Q(work)"), "work"),
        "S(work)"
    );
}

#[test]
fn visible_or_home_returns_to_remembered_workspace() {
    assert_eq!(
        visible_or_home(Some("S(main)"), Some("Q(work)"), "work"),
        "Q(work)"
    );
}

#[test]
fn visible_or_home_falls_back_to_a() {
    assert_eq!(visible_or_home(Some("S(main)"), None, "work"), "A(work)");
    assert_eq!(visible_or_home(None, None, "work"), "A(work)");
    assert_eq!(
        visible_or_home(Some("_"), Some("Q(main)"), "work"),
        "A(work)"
    );
}
