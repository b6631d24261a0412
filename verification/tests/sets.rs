use space::pins::{pinned_ids, pins_without, retain_live_pins, Pin};
use space::sets::{
    default_sets, file_stem, file_stems, ice_file, is_first, move_to_front, parse_sets,
    render_sets, retain_live, sets_without,
};

fn strings(items: &[&str]) -> Vec<String> {
    items.iter().map(|s| s.to_string()).collect()
}

#[test]
fn retain_live_keeps_only_sets_with_something_left() {
    let sets = ["main", "work", "scratch", "dead"].map(str::to_string).to_vec();
    let live = retain_live(
        sets,
        &["A(main)".to_string(), "_".to_string()],
        &["work".to_string()],
        &["scratch".to_string()],
    );
    assert_eq!(live, ["main", "work", "scratch"]);
}

#[test]
fn sets_known_at_first() {
    assert_eq!(default_sets(), ["main", "work", "scratch"]);
}

#[test]
fn stored_sets_are_the_lines_that_are_not_blank() {
    assert_eq!(parse_sets("main\n\n  \nwork\r\n scratch \n"), ["main", "work", " scratch "]);
    assert!(parse_sets("").is_empty());
    assert_eq!(parse_sets("main"), ["main"]);
}

#[test]
fn stored_sets_read_back() {
    let sets = strings(&["work", "ad hoc", "main"]);
    assert_eq!(render_sets(&sets), "work\nad hoc\nmain\n");
    assert_eq!(parse_sets(&render_sets(&sets)), sets);
    assert_eq!(render_sets(&[]), "\n");
    assert!(parse_sets(&render_sets(&[])).is_empty());
}

#[test]
fn touched_set_comes_first_once() {
    let sets = strings(&["main", "work", "scratch", "work"]);
    assert!(is_first(&sets, "main"));
    assert!(!is_first(&sets, "work"));
    assert!(!is_first(&[], "work"));
    assert_eq!(move_to_front(&sets, "work"), ["work", "main", "scratch"]);
    assert_eq!(move_to_front(&[], "new"), ["new"]);
    assert_eq!(sets_without(&sets, "work"), ["main", "scratch"]);
}

#[test]
fn frozen_set_is_listed_by_its_name() {
    for set in ["work", "a.b", ".hidden", "x.", "two words", "."] {
        assert_eq!(file_stem(&ice_file(set)), set);
    }
    assert_eq!(ice_file("work"), "work.json");
    assert_eq!(file_stems(&strings(&["work.json", "notes"])), ["work", "notes"]);
}

#[test]
fn file_stem_agrees_with_std() {
    for name in ["work.json", "a.b.json", ".json", "work", "work.", "a..b", ".a.b", "..a"] {
        let stem = std::path::Path::new(name).file_stem().expect("a file name");
        assert_eq!(file_stem(name), stem.to_string_lossy(), "{}", name);
    }
}

fn pin(con_id: i64, key: char) -> Pin {
    Pin { con_id, key }
}

#[test]
fn pins_of_closed_windows_are_dropped_in_order() {
    let pins = [pin(1, 'a'), pin(2, 'b'), pin(3, 'c')];
    assert_eq!(retain_live_pins(&pins, &[3, 9, 1]), [pin(1, 'a'), pin(3, 'c')]);
    assert_eq!(pins_without(&pins, 2), [pin(1, 'a'), pin(3, 'c')]);
    assert_eq!(pinned_ids(&pins), [1, 2, 3]);
}
