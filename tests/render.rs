use tracing_layer_lib::{
    compose_message, fields_line, format_entry_message, render_line, write_entry, Entry,
};

fn entry(name: &str, took: u128, fields: &[(&str, &str)], children: Vec<Entry>) -> Entry {
    Entry {
        stamp: 0,
        level: "INFO".to_string(),
        name: name.to_string(),
        file: Some("src/lib.rs".to_string()),
        line: Some(12),
        took,
        fields: fields
            .iter()
            .map(|(k, v)| (k.to_string(), v.to_string()))
            .collect(),
        children,
    }
}

#[test]
fn fields_line_skips_message() {
    let fields = vec![
        ("a".to_string(), "1".to_string()),
        ("message".to_string(), "hello".to_string()),
        ("b".to_string(), "2".to_string()),
    ];
    assert_eq!(fields_line(&fields), "a:1 b:2");
    assert_eq!(fields_line(&vec![]), "");
}

#[test]
fn compose_message_joins_parts() {
    let fields = vec![("k".to_string(), "v".to_string())];
    assert_eq!(
        compose_message(Some("name".to_string()), &fields, Some("text".to_string())),
        "name [k:v] text"
    );
    assert_eq!(compose_message(None, &vec![], Some("only".to_string())), "only");
    assert_eq!(compose_message(None, &vec![], None), "");
}

#[test]
fn message_without_colours() {
    console::set_colors_enabled(false);
    let e = entry("work", 2500, &[("info", "yes"), ("message", "more!")], vec![]);
    assert_eq!(format_entry_message(&e), "work [info:yes] more!");
    let ev = entry("event", 0, &[("message", "hi")], vec![]);
    assert_eq!(format_entry_message(&ev), "hi");
}

#[test]
fn message_with_colours() {
    console::set_colors_enabled(true);
    let e = entry("work", 2500, &[("message", "go")], vec![]);
    assert_eq!(
        format_entry_message(&e),
        "\u{1b}[36mwork\u{1b}[0m \u{1b}[3mgo\u{1b}[0m"
    );
}

#[test]
fn line_layout() {
    let e = entry("work", 2500, &[], vec![]);
    let line = render_line("10:00:00.000", &e, 2, true, "msg", 60);
    let head = "10:00:00.000  INFO     2ms      └─ msg";
    let loc = "src/lib.rs:12";
    let gap = 60 - (head.chars().count() + loc.len());
    assert_eq!(line, format!("{}{}{}", head, " ".repeat(gap), loc));
    let narrow = render_line("t", &e, 0, false, "m", 5);
    assert_eq!(narrow, "t  INFO     2ms msrc/lib.rs:12");
}

#[test]
fn tree_renders_depth_first() {
    console::set_colors_enabled(false);
    let leaf = entry("leaf", 0, &[("message", "deep")], vec![]);
    let a = entry("a", 1000, &[], vec![leaf]);
    let b = entry("b", 0, &[("message", "last")], vec![]);
    let root = entry("root", 3000, &[], vec![a, b]);
    let mut out = vec!["kept".to_string()];
    write_entry(&mut out, &root, 0);
    assert_eq!(out.len(), 5);
    assert_eq!(out[0], "kept");
    assert!(out[1].ends_with("  INFO     3ms rootsrc/lib.rs:12"));
    assert!(out[2].ends_with("  INFO     1ms  ├─ asrc/lib.rs:12"));
    assert!(out[3].ends_with("  INFO              └─ deepsrc/lib.rs:12"));
    assert!(out[4].ends_with("  INFO          └─ lastsrc/lib.rs:12"));
}
