use tracing_layer_lib::{extract_span_root, is_zero, Entry, Level, Monitor, RootSpanLayer, Scope};

fn span(name: &str, parent: Option<u64>, stamp: u64) -> Scope {
    Scope::new(Level::Info, name.to_string(), parent, Some("src/app.rs".to_string()), Some(7), stamp)
}

fn child_names(e: &Entry) -> Vec<String> {
    e.children.iter().map(|c| c.name.clone()).collect()
}

fn count(layer: &RootSpanLayer) -> usize {
    layer.monitor().as_ref().unwrap().span_count
}

#[test]
fn tests_test_layer() {
    // foobar() calls more(3), which logs one event.
    let mut layer = RootSpanLayer::new(Some(Monitor { span_count: 0 }));
    layer.on_new_span(1, span("foobar", None, 10));
    layer.on_enter(1, 0);
    layer.on_new_span(2, span("more", Some(1), 11));
    layer.on_enter(2, 5);
    let mut ev = span("event src/main.rs:10", Some(2), 12);
    ev.record_field("info".to_string(), "\"yes\"".to_string());
    ev.record_field("message".to_string(), "more!".to_string());
    assert!(layer.on_event(ev).is_none());
    layer.on_exit(2, 9);
    assert!(layer.on_close(2).is_none());
    layer.on_exit(1, 20);
    let entry = layer.on_close(1).unwrap();
    assert_eq!(count(&layer), 0);
    assert_eq!(entry.name, "foobar");
    assert_eq!(child_names(&entry), vec!["more".to_string()]);
    assert_eq!(entry.children[0].children.len(), 1);
    assert_eq!(entry.took, 20);
    assert_eq!(entry.children[0].took, 4);
}

#[test]
fn scenario_root_with_span_and_event() {
    let mut layer = RootSpanLayer::new(Some(Monitor { span_count: 0 }));
    layer.on_new_span(1, span("R", None, 100));
    layer.on_new_span(2, span("A", Some(1), 101));
    layer.on_enter(2, 0);
    layer.on_exit(2, 1000);
    let mut e = span("E", Some(1), 102);
    e.record_field("message".to_string(), "hi".to_string());
    assert!(layer.on_event(e).is_none());
    assert!(layer.on_close(2).is_none());
    assert_eq!(count(&layer), 2);
    let tree = layer.on_close(1).unwrap();
    assert_eq!(count(&layer), 0);
    assert_eq!(layer.spans().len(), 0);
    assert_eq!(tree.name, "R");
    assert_eq!(child_names(&tree), vec!["A".to_string(), "E".to_string()]);
    assert_eq!(tree.children[0].took, 1000);
    assert_eq!(tree.children[1].field("message").map(|s| s.as_str()), Some("hi"));
    assert_eq!(tree.took, 0);
}

#[test]
fn scenario_root_entered_twice() {
    let mut layer = RootSpanLayer::new(None);
    layer.on_new_span(9, span("R", None, 0));
    layer.on_enter(9, 100);
    layer.on_exit(9, 350);
    layer.on_enter(9, 1000);
    layer.on_exit(9, 1100);
    let tree = layer.on_close(9).unwrap();
    assert_eq!(tree.took, 350);
}

#[test]
fn never_entered_span_took_zero() {
    let mut layer = RootSpanLayer::new(None);
    layer.on_new_span(3, span("idle", None, 0));
    let tree = layer.on_close(3).unwrap();
    assert_eq!(tree.took, 0);
    assert!(is_zero(&tree.took));
    assert!(!is_zero(&5));
}

#[test]
fn event_without_parent_published_at_once() {
    let mut layer = RootSpanLayer::new(Some(Monitor { span_count: 0 }));
    layer.on_new_span(1, span("open", None, 0));
    let mut e = span("lonely", None, 42);
    e.record_field("message".to_string(), "let's go!".to_string());
    let tree = layer.on_event(e).unwrap();
    assert_eq!(tree.name, "lonely");
    assert_eq!(tree.stamp, 42);
    assert_eq!(tree.level, "INFO");
    assert_eq!(tree.file.as_deref(), Some("src/app.rs"));
    assert_eq!(tree.line, Some(7));
    assert!(tree.children.is_empty());
    assert_eq!(tree.field("message").map(|s| s.as_str()), Some("let's go!"));
    assert_eq!(layer.spans().len(), 1);
}

#[test]
fn closed_child_stays_until_root_closes() {
    let mut layer = RootSpanLayer::new(Some(Monitor { span_count: 0 }));
    layer.on_new_span(1, span("R", None, 0));
    layer.on_new_span(2, span("A", Some(1), 1));
    layer.on_new_span(3, span("B", Some(2), 2));
    assert!(layer.on_close(3).is_none());
    assert!(layer.on_close(2).is_none());
    assert_eq!(layer.spans().len(), 3);
    assert_eq!(count(&layer), 3);
    let tree = layer.on_close(1).unwrap();
    assert_eq!(child_names(&tree), vec!["A".to_string()]);
    assert_eq!(child_names(&tree.children[0]), vec!["B".to_string()]);
    assert_eq!(layer.spans().len(), 0);
}

#[test]
fn children_keep_arrival_order() {
    let mut layer = RootSpanLayer::new(None);
    layer.on_new_span(1, span("R", None, 0));
    layer.on_new_span(5, span("c", Some(1), 3));
    assert!(layer.on_event(span("b", Some(1), 2)).is_none());
    layer.on_new_span(4, span("a", Some(1), 1));
    let tree = layer.on_close(1).unwrap();
    assert_eq!(
        child_names(&tree),
        vec!["c".to_string(), "b".to_string(), "a".to_string()]
    );
}

#[test]
fn unknown_identifiers_are_ignored() {
    let mut layer = RootSpanLayer::new(Some(Monitor { span_count: 7 }));
    layer.on_enter(77, 1);
    layer.on_exit(77, 2);
    assert!(layer.on_close(77).is_none());
    assert_eq!(count(&layer), 7);
    assert_eq!(layer.spans().len(), 0);
    // A parent that is not resident drops the link and the event.
    layer.on_new_span(2, span("orphan", Some(99), 0));
    assert!(layer.on_event(span("lost", Some(98), 0)).is_none());
    assert_eq!(layer.spans().len(), 1);
    assert!(layer.on_close(2).is_none());
    assert_eq!(count(&layer), 1);
}

#[test]
fn reenter_before_exit_takes_later_start() {
    let mut layer = RootSpanLayer::new(None);
    layer.on_new_span(1, span("R", None, 0));
    layer.on_enter(1, 100);
    layer.on_enter(1, 400);
    layer.on_exit(1, 500);
    layer.on_exit(1, 900);
    let tree = layer.on_close(1).unwrap();
    assert_eq!(tree.took, 100);
}

#[test]
fn clock_going_back_adds_nothing() {
    let mut layer = RootSpanLayer::new(None);
    layer.on_new_span(1, span("R", None, 0));
    layer.on_enter(1, 500);
    layer.on_exit(1, 400);
    let tree = layer.on_close(1).unwrap();
    assert_eq!(tree.took, 0);
}

#[test]
fn later_field_value_wins() {
    let mut s = span("R", None, 0);
    s.record_field("k".to_string(), "1".to_string());
    s.record_field("m".to_string(), "2".to_string());
    s.record_field("k".to_string(), "3".to_string());
    let e = s.to_entry();
    assert_eq!(e.fields, vec![("k".to_string(), "3".to_string()), ("m".to_string(), "2".to_string())]);
    assert_eq!(e.field("k").map(|s| s.as_str()), Some("3"));
    assert_eq!(e.field("z"), None);
}

#[test]
fn level_names() {
    assert_eq!(Level::Trace.as_str(), "TRACE");
    assert_eq!(Level::Debug.as_str(), "DEBUG");
    assert_eq!(Level::Info.as_str(), "INFO");
    assert_eq!(Level::Warn.as_str(), "WARN");
    assert_eq!(Level::Error.as_str(), "ERROR");
    assert!(Level::Trace < Level::Error);
}

#[test]
fn extract_missing_root_is_none() {
    let mut layer = RootSpanLayer::new(None);
    layer.on_new_span(1, span("R", None, 0));
    let mut spans = std::collections::HashMap::new();
    assert!(extract_span_root(1, &mut spans).is_none());
    spans.insert(1, span("R", None, 5));
    spans.insert(2, span("A", Some(1), 6));
    let tree = extract_span_root(1, &mut spans).unwrap();
    assert_eq!(tree.stamp, 5);
    assert!(tree.children.is_empty());
    assert_eq!(spans.len(), 1);
}

#[test]
fn separate_roots_published_separately() {
    let mut layer = RootSpanLayer::new(Some(Monitor { span_count: 0 }));
    layer.on_new_span(1, span("first", None, 0));
    layer.on_new_span(2, span("second", None, 0));
    layer.on_new_span(3, span("under_second", Some(2), 0));
    let t1 = layer.on_close(1).unwrap();
    assert!(t1.children.is_empty());
    assert_eq!(count(&layer), 2);
    let t2 = layer.on_close(2).unwrap();
    assert_eq!(child_names(&t2), vec!["under_second".to_string()]);
    assert_eq!(count(&layer), 0);
}

#[test]
fn duration_held_at_largest_value() {
    let mut layer = RootSpanLayer::new(None);
    let mut s = span("R", None, 0);
    s.took = u128::MAX - 5;
    layer.on_new_span(1, s);
    layer.on_enter(1, 0);
    layer.on_exit(1, 100);
    let tree = layer.on_close(1).unwrap();
    assert_eq!(tree.took, u128::MAX);
}

#[test]
fn reused_identifier_replaces_record() {
    let mut layer = RootSpanLayer::new(None);
    layer.on_new_span(1, span("R", None, 0));
    layer.on_new_span(2, span("first", Some(1), 1));
    layer.on_new_span(2, span("second", None, 2));
    assert_eq!(layer.spans().len(), 2);
    let t2 = layer.on_close(2).unwrap();
    assert_eq!(t2.name, "second");
    let t1 = layer.on_close(1).unwrap();
    assert!(t1.children.is_empty());
}
