use sysy::display::{detail_text, edge_kind_name, node_kind_name};
use sysy::id_map::IdMap;
use sysy::model::{Container, Design, Edge, EdgeKind, LayoutEntry, Node, NodeKind, Note};
use sysy::scene::{containers_in_paint_order, edge_offsets, highlighted, ShapeKind};

fn node(id: &str, kind: NodeKind, label: &str, container: Option<&str>) -> Node {
    Node {
        id: id.into(),
        kind,
        label: label.into(),
        description: None,
        tags: Vec::new(),
        container: container.map(str::to_owned),
    }
}

fn edge(id: &str, from: &str, to: &str, kind: EdgeKind, label: Option<&str>) -> Edge {
    Edge {
        id: id.into(),
        from: from.into(),
        to: to.into(),
        kind,
        label: label.map(str::to_owned),
        bidirectional: false,
    }
}

fn example() -> Design {
    let mut layout = IdMap::new();
    layout.insert(
        "api".into(),
        LayoutEntry {
            x: 320.0f64.to_bits(),
            y: 120.0f64.to_bits(),
            size: None,
        },
    );
    Design {
        title: "Checkout".into(),
        description: Some("Order placement path.".into()),
        containers: vec![Container {
            id: "vpc".into(),
            label: "Production VPC".into(),
            description: None,
            parent: None,
        }],
        nodes: vec![
            node("api", NodeKind::Service, "Checkout API", Some("vpc")),
            node("orders", NodeKind::Database, "Orders DB", Some("vpc")),
            node("shopper", NodeKind::Client, "Shopper", None),
        ],
        edges: vec![
            edge("persist", "api", "orders", EdgeKind::Data, None),
            edge("place-order", "shopper", "api", EdgeKind::Sync, Some("POST /orders")),
        ],
        notes: Vec::new(),
        layout,
    }
}

#[test]
fn details_include_metadata_direction_connections_and_note_attachment() {
    let mut design = example();
    design.nodes[0].description = Some("Accepts orders".into());
    design.nodes[0].tags = vec!["public".into(), "http".into()];
    design.edges[0].bidirectional = true;
    design.notes.push(Note {
        id: "note".into(),
        text: "Review".into(),
        on: Some("api".into()),
    });
    let fields = detail_text(&design, "api").unwrap();
    let get = |name: &str| fields.iter().find(|(key, _)| key == name).unwrap().1.as_str();
    assert_eq!(get("Id"), "api");
    assert_eq!(get("Kind"), "service");
    assert_eq!(get("Label"), "Checkout API");
    assert_eq!(get("Description"), "Accepts orders");
    assert_eq!(get("Tags"), "public, http");
    assert!(get("Connections").contains("api ↔ orders (data)"));
    assert!(get("Connections").contains("POST /orders"));
    assert!(detail_text(&design, "persist")
        .unwrap()
        .contains(&("Direction".into(), "bidirectional".into())));
    assert!(detail_text(&design, "note")
        .unwrap()
        .contains(&("Attached to".into(), "api".into())));
    assert!(detail_text(&design, "vpc")
        .unwrap()
        .contains(&("Kind".into(), "container".into())));
    assert!(detail_text(&design, "missing").is_none());
}

#[test]
fn details_show_none_for_missing_metadata_in_field_order() {
    let design = example();
    let fields = detail_text(&design, "shopper").unwrap();
    let expected: Vec<(String, String)> = [
        ("Id", "shopper"),
        ("Kind", "client"),
        ("Label", "Shopper"),
        ("Description", "None"),
        ("Tags", "None"),
        ("Connections", "place-order: shopper → api (sync) — POST /orders"),
    ]
    .into_iter()
    .map(|(k, v)| (k.to_string(), v.to_string()))
    .collect();
    assert_eq!(fields, expected);
}

#[test]
fn kind_names_are_lowercase() {
    assert_eq!(node_kind_name(NodeKind::Generic), "generic");
    assert_eq!(node_kind_name(NodeKind::Storage), "storage");
    assert_eq!(edge_kind_name(EdgeKind::Dependency), "dependency");
    assert_eq!(edge_kind_name(EdgeKind::Async), "async");
}

#[test]
fn hovering_highlights_the_element_and_its_edges() {
    let endpoints = Some(("api".to_string(), "orders".to_string()));
    assert!(highlighted("persist", &endpoints, Some("api")));
    assert!(highlighted("persist", &endpoints, Some("orders")));
    assert!(highlighted("persist", &endpoints, Some("persist")));
    assert!(!highlighted("persist", &endpoints, Some("shopper")));
    assert!(!highlighted("api", &None, None));
    assert!(highlighted("api", &None, Some("api")));
    assert_eq!(ShapeKind::Node(NodeKind::Queue), ShapeKind::Node(NodeKind::Queue));
    assert_ne!(ShapeKind::Edge(EdgeKind::Sync), ShapeKind::Edge(EdgeKind::Data));
}

#[test]
fn parallel_edges_fan_out_in_id_order_in_either_direction() {
    let mut design = example();
    design.edges.push(edge("read-back", "orders", "api", EdgeKind::Async, None));
    design.edges.push(edge("audit", "api", "orders", EdgeKind::Dependency, None));
    assert!(design.validate().is_empty());
    let offsets = edge_offsets(&design);
    // persist, place-order, read-back, audit
    assert_eq!(offsets, vec![0, 0, 56, -56]);
}

#[test]
fn containers_paint_outside_in_then_by_id() {
    let mut design = example();
    design.containers.push(Container {
        id: "inner".into(),
        label: "Inner".into(),
        description: None,
        parent: Some("vpc".into()),
    });
    design.containers.push(Container {
        id: "aside".into(),
        label: "Aside".into(),
        description: None,
        parent: None,
    });
    design.nodes[0].container = Some("inner".into());
    assert!(design.validate().is_empty());
    let order: Vec<&str> = containers_in_paint_order(&design).iter().map(|c| c.id.as_str()).collect();
    assert_eq!(order, ["aside", "vpc", "inner"]);
}
