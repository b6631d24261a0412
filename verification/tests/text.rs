use space::string_map::StringMap;
use space::sway;
use space::text::{is_white, join, push_decimal, push_integer, split_lines, text_precedes, trim};

#[test]
fn whitespace_is_what_std_takes_for_it() {
    for c in '\0'..=char::MAX {
        assert_eq!(is_white(c), c.is_whitespace(), "{:?}", c);
    }
}

#[test]
fn trim_agrees_with_std() {
    for s in ["", "  ", " a b ", "\u{a0}x\u{3000}\n", "plain", "\t\r\n-"] {
        assert_eq!(trim(s), s.trim());
    }
}

#[test]
fn lines_agree_with_std() {
    for s in ["", "\n", "a", "a\n", "a\nb", "a\r\nb\r", "\r\n\n\r", "a\n\nb\n", "\r\r\n"] {
        assert_eq!(split_lines(s), s.lines().collect::<Vec<_>>(), "{:?}", s);
    }
}

#[test]
fn join_puts_the_separator_between() {
    let parts = vec!["a".to_string(), "".to_string(), "b".to_string()];
    assert_eq!(join(&parts, ", "), "a, , b");
    assert_eq!(join(&[], ", "), "");
}

#[test]
fn integers_are_written_in_decimal() {
    for n in [0, 7, 10, -1, 1234567890123, i64::MAX, i64::MIN] {
        let mut s = String::from("n=");
        push_integer(&mut s, n);
        assert_eq!(s, format!("n={}", n));
    }
    let mut s = String::new();
    push_decimal(&mut s, u128::MAX);
    assert_eq!(s, u128::MAX.to_string());
}

#[test]
fn texts_are_ordered_as_std_orders_them() {
    let texts = ["", "a", "ab", "b", "Z", "z", "\u{e9}", "\u{ffff}", "\u{10000}"];
    for a in texts {
        for b in texts {
            assert_eq!(text_precedes(a, b), a < b, "{:?} {:?}", a, b);
        }
    }
}

#[test]
fn maps_keep_their_keys_in_order() {
    let mut map = StringMap::new();
    for (key, value) in [("b", "1"), ("a", "2"), ("c", "3"), ("b", "4")] {
        map.insert(key.to_string(), value.to_string());
    }
    let pairs: Vec<(&str, &str)> =
        map.entries().iter().map(|(k, v)| (k.as_str(), v.as_str())).collect();
    assert_eq!(pairs, [("a", "2"), ("b", "4"), ("c", "3")]);
    assert_eq!(map.get("b"), Some("4"));
    assert_eq!(map.get("d"), None);
    map.remove_value("4");
    map.retain_keys(&["a".to_string(), "z".to_string()]);
    assert_eq!(map.to_json(), "{\n  \"a\": \"2\"\n}");
}

#[test]
fn maps_read_back_whatever_they_hold() -> Result<(), serde_json::Error> {
    let mut map = StringMap::new();
    map.insert("quote\" and \\".to_string(), "line\nfeed\u{1f600}\0".to_string());
    map.insert(String::new(), String::new());
    let again = StringMap::from_json(&map.to_json())?;
    assert!(again == map);
    assert!(StringMap::from_json("{\"a\": 1}").is_err());
    assert!(StringMap::from_json("[]").is_err());
    assert_eq!(StringMap::from_json("{\"a\": \"1\", \"a\": \"2\"}")?.get("a"), Some("2"));
    Ok(())
}

#[test]
fn commands_are_written_as_sway_takes_them() {
    assert_eq!(sway::move_to(7, "_"), "[con_id=7] move to workspace \"_\"");
    assert_eq!(sway::float(-7), "[con_id=-7] floating enable");
    assert_eq!(
        sway::carry_to(7, "Q(work)"),
        "[con_id=7] move container to workspace \"Q(work)\""
    );
    assert_eq!(sway::swap_with(7, 8), "[con_id=7] swap container with con_id 8");
    assert_eq!(sway::lay_out("Q(work)", "tabbed"), "workspace \"Q(work)\", layout tabbed");
    assert_eq!(sway::switch_to("Q(work)"), "workspace \"Q(work)\"");
    assert_eq!(sway::send_to("Q(work)"), "move container to workspace \"Q(work)\"");
    assert_eq!(
        sway::bring_to("Q(work)", "DP-2"),
        "workspace \"Q(work)\"; move workspace to output \"DP-2\""
    );
    assert_eq!(
        sway::show_on("DP-2", "Q(work)"),
        "focus output \"DP-2\"; workspace \"Q(work)\""
    );
    assert_eq!(sway::split("splitv"), "splitv");
    assert_eq!(sway::split("tabbed"), "layout tabbed");
    assert_eq!(sway::split("stacking"), "layout stacking");
    assert_eq!(sway::split("anything"), "splith");
}

#[test]
fn notices_say_what_happened() {
    assert_eq!(sway::say_iced("work", 0), "Ice: No windows in set 'work'");
    assert_eq!(sway::say_iced("work", 12), "Iced: work (12 windows)");
    assert_eq!(sway::say_thawed("work", 2, 3), "Thawed: work (2/3 windows)");
    assert_eq!(sway::say_not_iced("work"), "No iced set: work");
    assert_eq!(sway::say_not_thawed("work"), "Failed to thaw: work");
    assert_eq!(sway::say_delivered(2, "Q(work)", false), "Moved 2 windows to Q(work)");
    assert_eq!(sway::say_delivered(1, "Q(work)", true), "Moved 1 windows to Q(work) (iced)");
    assert_eq!(sway::say_pinned('Q'), "Pinned to Q");
}
