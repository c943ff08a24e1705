use sysy::id_map::IdMap;
use sysy::interaction::{
    concerns_design, drag_changed, drag_targets, keeps_selection, merge_positions, needs_placement, reconcile,
    same_bytes, same_entry, status_text, Debounce, WatchEvent, DEBOUNCE,
};
use sysy::model::{Container, Design, Edge, EdgeKind, Layout, LayoutEntry, Node, NodeKind, Size};

fn entry(x: f64, y: f64) -> LayoutEntry {
    LayoutEntry {
        x: x.to_bits(),
        y: y.to_bits(),
        size: None,
    }
}

fn sized(x: f64, y: f64, width: f64, height: f64) -> LayoutEntry {
    LayoutEntry {
        x: x.to_bits(),
        y: y.to_bits(),
        size: Some(Size {
            width: width.to_bits(),
            height: height.to_bits(),
        }),
    }
}

fn node(id: &str, kind: NodeKind, label: &str, container: Option<&str>) -> Node {
    Node {
        id: id.into(),
        kind,
        label: label.into(),
        description: None,
        tags: Vec::new(),
        container: container.map(str::to_owned),
    }
}

fn container(id: &str, parent: Option<&str>) -> Container {
    Container {
        id: id.into(),
        label: id.to_uppercase(),
        description: None,
        parent: parent.map(str::to_owned),
    }
}

/// The checkout example with `api` moved two containers deep.
fn example() -> Design {
    let mut layout = IdMap::new();
    layout.insert("api".into(), entry(320.0, 120.0));
    let mut design = Design {
        title: "Checkout".into(),
        description: Some("Order placement path.".into()),
        containers: vec![
            container("deep", Some("inner")),
            container("inner", Some("vpc")),
            container("outside", None),
            container("vpc", None),
        ],
        nodes: vec![
            node("api", NodeKind::Service, "Checkout API", Some("deep")),
            node("nested", NodeKind::Service, "Nested", Some("inner")),
            node("orders", NodeKind::Database, "Orders DB", Some("vpc")),
            node("shopper", NodeKind::Client, "Shopper", None),
        ],
        edges: vec![
            Edge {
                id: "persist".into(),
                from: "api".into(),
                to: "orders".into(),
                kind: EdgeKind::Data,
                label: None,
                bidirectional: false,
            },
            Edge {
                id: "place-order".into(),
                from: "shopper".into(),
                to: "api".into(),
                kind: EdgeKind::Sync,
                label: Some("POST /orders".into()),
                bidirectional: false,
            },
        ],
        notes: Vec::new(),
        layout,
    };
    assert!(design.validate().is_empty());
    design.layout.clear();
    design.layout.insert("api".into(), entry(320.0, 120.0));
    design
}

fn keys(map: &IdMap<()>) -> Vec<&str> {
    map.items().iter().map(|(id, _)| id.as_str()).collect()
}

#[test]
fn container_drag_moves_all_descendants_and_nothing_else() {
    let design = example();
    assert_eq!(keys(&drag_targets(&design, "vpc")), ["api", "deep", "inner", "nested", "orders", "vpc"]);
    assert_eq!(keys(&drag_targets(&design, "inner")), ["api", "deep", "inner", "nested"]);
    assert_eq!(keys(&drag_targets(&design, "api")), ["api"]);
    assert!(drag_targets(&design, "persist").is_empty());
}

#[test]
fn merge_preserves_disk_elements_metadata_and_unrelated_pins() {
    let original = example();
    let mut changed: Layout = IdMap::new();
    for (index, id) in ["api", "deep", "inner", "nested", "orders", "vpc"].into_iter().enumerate() {
        let offset = index as f64 * 100.0;
        if id == "vpc" || id == "inner" || id == "deep" {
            changed.insert(id.into(), sized(30.0 + offset, 50.0, 400.0, 300.0));
        } else {
            changed.insert(id.into(), entry(30.0 + offset, 50.0));
        }
    }
    let mut disk = original;
    disk.title = "Agent's new title".into();
    disk.description = Some("Updated description".into());
    disk.nodes[0].label = "Updated API".into();
    disk.nodes[0].tags.push("new-tag".into());
    disk.nodes.push(node("new", NodeKind::Cache, "New", None));
    disk.layout.insert("shopper".into(), entry(-900.0, 800.0));
    let mut expected = disk.clone();
    expected.layout.extend(&changed);
    merge_positions(&mut disk, &changed);
    assert_eq!(disk, expected);
    assert!(disk.validate().is_empty());
}

#[test]
fn merge_drops_deleted_elements_and_sizes_of_non_containers() {
    let mut design = example();
    let mut changed: Layout = IdMap::new();
    changed.insert("gone".into(), entry(1.0, 2.0));
    changed.insert("orders".into(), sized(5.0, 6.0, 10.0, 10.0));
    changed.insert("vpc".into(), sized(7.0, 8.0, 10.0, 10.0));
    merge_positions(&mut design, &changed);
    assert_eq!(design.layout.get("gone"), None);
    assert_eq!(design.layout.get("orders"), Some(entry(5.0, 6.0)));
    assert_eq!(design.layout.get("vpc"), Some(sized(7.0, 8.0, 10.0, 10.0)));
    assert_eq!(design.layout.get("api"), Some(entry(320.0, 120.0)));
}

#[test]
fn ten_events_in_a_burst_yield_exactly_one_reload_after_the_last_event() {
    let start: u64 = 1_000_000_000;
    let millisecond: u64 = 1_000_000;
    let mut debounce = Debounce::default();
    assert!(!debounce.take_ready(start));
    for index in 0..10 {
        let time = start + index * 10 * millisecond;
        debounce.record(time);
        assert!(!debounce.take_ready(time));
    }
    let deadline = start + 90 * millisecond + DEBOUNCE;
    assert!(!debounce.take_ready(deadline - millisecond));
    assert!(debounce.take_ready(deadline));
    assert!(!debounce.take_ready(deadline + DEBOUNCE));
    debounce.record(deadline);
    assert!(debounce.take_ready(deadline + DEBOUNCE));
}

#[test]
fn an_earlier_event_does_not_move_the_deadline_back() {
    let mut debounce = Debounce::default();
    debounce.record(500_000_000);
    debounce.record(100_000_000);
    assert_eq!(debounce.last_event, Some(500_000_000));
    assert!(!debounce.take_ready(500_000_000 + DEBOUNCE - 1));
    assert!(debounce.take_ready(500_000_000 + DEBOUNCE));
}

#[test]
fn reload_keeps_transient_positions_and_takes_changed_pins() {
    let before = example();
    let mut positions: Layout = IdMap::new();
    positions.insert("api".into(), entry(320.0, 120.0));
    positions.insert("orders".into(), entry(10.0, 10.0));
    positions.insert("shopper".into(), entry(20.0, 20.0));
    positions.insert("vpc".into(), sized(0.0, 0.0, 900.0, 500.0));
    let mut disk = before.clone();
    disk.nodes.retain(|n| n.id != "shopper");
    disk.edges.retain(|e| e.id != "place-order");
    disk.layout.insert("orders".into(), entry(55.0, 66.0));
    disk.layout.insert("vpc".into(), sized(0.0, 0.0, 800.0, 400.0));
    assert!(disk.validate().is_empty());
    let next = reconcile(&before.layout, &positions, &disk);
    // Unchanged pin: the transient position stays.
    assert_eq!(next.get("api"), Some(entry(320.0, 120.0)));
    // Changed or new pins take over.
    assert_eq!(next.get("orders"), Some(entry(55.0, 66.0)));
    assert_eq!(next.get("vpc"), Some(sized(0.0, 0.0, 800.0, 400.0)));
    // Deleted elements lose their positions.
    assert_eq!(next.get("shopper"), None);
    assert!(needs_placement(&disk, &next));
    assert!(keeps_selection(&disk, "persist"));
    assert!(keeps_selection(&disk, "inner"));
    assert!(!keeps_selection(&disk, "shopper"));
}

#[test]
fn every_element_with_a_position_means_nothing_to_place() {
    let design = example();
    let mut positions: Layout = IdMap::new();
    for id in ["api", "deep", "inner", "nested", "orders", "outside", "shopper", "vpc"] {
        positions.insert(id.into(), entry(0.0, 0.0));
    }
    assert!(!needs_placement(&design, &positions));
}

#[test]
fn equal_entries_compare_as_numbers() {
    assert!(same_entry(&entry(0.0, 1.0), &entry(-0.0, 1.0)));
    assert!(!same_entry(&entry(f64::NAN, 1.0), &entry(f64::NAN, 1.0)));
    assert!(!same_entry(&entry(1.0, 1.0), &sized(1.0, 1.0, 2.0, 2.0)));
    let mut a: Layout = IdMap::new();
    let mut b: Layout = IdMap::new();
    assert!(!drag_changed(&a, &b));
    a.insert("api".into(), entry(1.0, 2.0));
    b.insert("api".into(), entry(1.0, 2.0));
    assert!(!drag_changed(&a, &b));
    a.insert("api".into(), entry(3.0, 2.0));
    assert!(drag_changed(&a, &b));
}

#[test]
fn status_shows_utc_time_and_the_last_error() {
    assert_eq!(status_text(0, &None), "Last reload 00:00:00 UTC");
    assert_eq!(status_text(86_400 + 3_600 * 13 + 60 * 5 + 9, &None), "Last reload 13:05:09 UTC");
    assert_eq!(
        status_text(59, &Some("invalid JSON: EOF".into())),
        "Last reload 00:00:59 UTC\ninvalid JSON: EOF"
    );
}

#[test]
fn a_poll_records_changes_reports_the_last_failure_and_reloads_once_settled() {
    let millisecond: u64 = 1_000_000;
    let mut debounce = Debounce::default();
    let outcome = debounce.poll(
        false,
        vec![
            WatchEvent::Changed(10 * millisecond),
            WatchEvent::Failed("first".into()),
            WatchEvent::Ignored,
            WatchEvent::Changed(40 * millisecond),
            WatchEvent::Failed("second".into()),
            WatchEvent::Changed(20 * millisecond),
        ],
        100 * millisecond,
    );
    assert!(!outcome.reload);
    assert_eq!(outcome.failure.as_deref(), Some("File watch failed: second"));
    assert_eq!(debounce.last_event, Some(40 * millisecond));
    let quiet = debounce.poll(false, vec![WatchEvent::Ignored], 40 * millisecond + DEBOUNCE);
    assert!(quiet.reload);
    assert_eq!(quiet.failure, None);
    assert_eq!(debounce.last_event, None);
    let after = debounce.poll(false, Vec::new(), 500 * millisecond);
    assert!(!after.reload);
}

#[test]
fn a_poll_during_a_drag_holds_every_event_for_later() {
    let millisecond: u64 = 1_000_000;
    let mut debounce = Debounce::default();
    let held = debounce.poll(
        true,
        vec![WatchEvent::Changed(10 * millisecond), WatchEvent::Failed("watch".into())],
        500 * millisecond,
    );
    assert!(!held.reload);
    assert_eq!(held.failure, None);
    assert_eq!(held.held.len(), 2);
    assert_eq!(debounce.last_event, None);
    let after = debounce.poll(false, held.held, 500 * millisecond);
    assert!(after.reload);
    assert_eq!(after.failure.as_deref(), Some("File watch failed: watch"));
    assert!(after.held.is_empty());
    assert_eq!(debounce.last_event, None);
}

fn file_name(path: &str) -> Option<Vec<u8>> {
    std::path::Path::new(path).file_name().map(|name| name.as_encoded_bytes().to_vec())
}

fn event_matches(access: bool, paths: &[&str], target: &str) -> bool {
    let changed: Vec<Option<Vec<u8>>> = paths.iter().map(|path| file_name(path)).collect();
    concerns_design(false, access, &file_name(target), &changed)
}

#[test]
fn file_events_match_both_rename_paths_and_ignore_other_files_and_access() {
    let target = "/designs/design.json";
    // Creations, content changes, removals and unspecified changes alike:
    // only the kind of a read matters.
    assert!(event_matches(false, &[target], target));
    assert!(!event_matches(false, &["/designs/other.json"], target));
    // A rename names both paths; either may be the design file.
    assert!(event_matches(false, &["/designs/.temporary", target], target));
    assert!(event_matches(false, &[target, "/designs/backup.json"], target));
    assert!(!event_matches(false, &["/designs/.temporary", "/designs/other.json"], target));
    assert!(!event_matches(true, &[target], target));
    assert!(!event_matches(false, &[], target));
    assert!(event_matches(false, &["design.json"], target));
}

#[test]
fn a_rescan_always_concerns_the_design_and_a_path_without_a_name_never_does() {
    assert!(concerns_design(true, true, &None, &Vec::new()));
    assert!(!concerns_design(false, false, &file_name("/"), &vec![file_name("/")]));
    assert!(same_bytes(&b"design.json".to_vec(), &b"design.json".to_vec()));
    assert!(!same_bytes(&b"design.json".to_vec(), &b"design.jsom".to_vec()));
    assert!(!same_bytes(&b"design".to_vec(), &b"design.json".to_vec()));
}
