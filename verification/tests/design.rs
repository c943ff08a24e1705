use serde_json::Value;
use sysy::document::{document, load_sections, save_document, Field, Metadata, Positions, Records, Sections, Version, VERSION};
use sysy::error::DesignError;
use sysy::id_map::IdMap;
use sysy::model::{Container, Design, Edge, EdgeKind, LayoutEntry, Node, NodeKind, Note, Size};
use sysy::validation::{validate, Problem};

fn entry(x: f64, y: f64, size: Option<(f64, f64)>) -> LayoutEntry {
    LayoutEntry {
        x: x.to_bits(),
        y: y.to_bits(),
        size: size.map(|(width, height)| Size {
            width: width.to_bits(),
            height: height.to_bits(),
        }),
    }
}

fn node(id: &str, kind: NodeKind, label: &str, container: Option<&str>) -> Node {
    Node {
        id: id.into(),
        kind,
        label: label.into(),
        description: None,
        tags: Vec::new(),
        container: container.map(str::to_owned),
    }
}

fn edge(id: &str, from: &str, to: &str, kind: EdgeKind, label: Option<&str>) -> Edge {
    Edge {
        id: id.into(),
        from: from.into(),
        to: to.into(),
        kind,
        label: label.map(str::to_owned),
        bidirectional: false,
    }
}

/// The documented checkout example, in canonical order.
fn checkout() -> Design {
    let mut layout = IdMap::new();
    layout.insert("api".into(), entry(320.0, 120.0, None));
    Design {
        title: "Checkout".into(),
        description: Some("Order placement path.".into()),
        containers: vec![Container {
            id: "vpc".into(),
            label: "Production VPC".into(),
            description: None,
            parent: None,
        }],
        nodes: vec![
            node("api", NodeKind::Service, "Checkout API", Some("vpc")),
            node("orders", NodeKind::Database, "Orders DB", Some("vpc")),
            node("shopper", NodeKind::Client, "Shopper", None),
        ],
        edges: vec![
            edge("persist", "api", "orders", EdgeKind::Data, None),
            edge("place-order", "shopper", "api", EdgeKind::Sync, Some("POST /orders")),
        ],
        notes: Vec::new(),
        layout,
    }
}

const EXAMPLE: &str = r#"{
  "version": 1,
  "design": { "title": "Checkout", "description": "Order placement path." },
  "containers": [
    { "id": "vpc", "label": "Production VPC" }
  ],
  "nodes": [
    { "id": "api", "kind": "service", "label": "Checkout API", "container": "vpc" },
    { "id": "orders", "kind": "database", "label": "Orders DB", "container": "vpc" },
    { "id": "shopper", "kind": "client", "label": "Shopper" }
  ],
  "edges": [
    { "id": "place-order", "from": "shopper", "to": "api", "kind": "sync", "label": "POST /orders" },
    { "id": "persist", "from": "api", "to": "orders", "kind": "data" }
  ],
  "notes": [],
  "layout": {
    "api": { "x": 320, "y": 120 }
  }
}"#;

/// A design with a duplicate id, a missing edge endpoint, and a parent cycle.
const MULTIPLE_PROBLEMS: &str = r#"{
  "version": 1,
  "design": { "title": "Problems" },
  "containers": [
    { "id": "region", "label": "Region", "parent": "vpc" },
    { "id": "vpc", "label": "VPC", "parent": "region" }
  ],
  "nodes": [
    { "id": "api", "kind": "service", "label": "API", "container": "vpc" },
    { "id": "api", "kind": "service", "label": "Second API" },
    { "id": "orders", "kind": "database", "label": "Orders" },
    { "id": "shopper", "kind": "client", "label": "Shopper" }
  ],
  "edges": [
    { "id": "persist", "from": "api", "to": "missing-node", "kind": "data" },
    { "id": "place-order", "from": "shopper", "to": "api", "kind": "sync" }
  ],
  "notes": [],
  "layout": {}
}"#;

// Decoding a JSON value into the sections the library assembles.

fn text(object: &serde_json::Map<String, Value>, key: &str) -> Result<String, String> {
    match object.get(key) {
        Some(Value::String(s)) => Ok(s.clone()),
        Some(_) => Err(format!("invalid type for `{key}`")),
        None => Err(format!("missing field `{key}`")),
    }
}

fn optional_text(object: &serde_json::Map<String, Value>, key: &str) -> Result<Option<String>, String> {
    match object.get(key) {
        None | Some(Value::Null) => Ok(None),
        Some(Value::String(s)) => Ok(Some(s.clone())),
        Some(_) => Err(format!("invalid type for `{key}`")),
    }
}

fn as_object(value: &Value) -> Result<&serde_json::Map<String, Value>, String> {
    value.as_object().ok_or_else(|| "expected an object".to_string())
}

fn node_kind(name: &str) -> Result<NodeKind, String> {
    Ok(match name {
        "service" => NodeKind::Service,
        "database" => NodeKind::Database,
        "queue" => NodeKind::Queue,
        "cache" => NodeKind::Cache,
        "storage" => NodeKind::Storage,
        "client" => NodeKind::Client,
        "external" => NodeKind::External,
        "function" => NodeKind::Function,
        "generic" => NodeKind::Generic,
        other => return Err(format!("unknown variant `{other}`")),
    })
}

fn edge_kind(name: &str) -> Result<EdgeKind, String> {
    Ok(match name {
        "sync" => EdgeKind::Sync,
        "async" => EdgeKind::Async,
        "data" => EdgeKind::Data,
        "dependency" => EdgeKind::Dependency,
        other => return Err(format!("unknown variant `{other}`")),
    })
}

fn decode_node(value: &Value) -> Result<Node, String> {
    let object = as_object(value)?;
    let tags = match object.get("tags") {
        None => Vec::new(),
        Some(Value::Array(items)) => items
            .iter()
            .map(|tag| tag.as_str().map(str::to_owned).ok_or_else(|| "invalid tag".to_string()))
            .collect::<Result<_, _>>()?,
        Some(_) => return Err("invalid type for `tags`".into()),
    };
    Ok(Node {
        id: text(object, "id")?,
        kind: node_kind(&text(object, "kind")?)?,
        label: text(object, "label")?,
        description: optional_text(object, "description")?,
        tags,
        container: optional_text(object, "container")?,
    })
}

fn decode_container(value: &Value) -> Result<Container, String> {
    let object = as_object(value)?;
    Ok(Container {
        id: text(object, "id")?,
        label: text(object, "label")?,
        description: optional_text(object, "description")?,
        parent: optional_text(object, "parent")?,
    })
}

fn decode_edge(value: &Value) -> Result<Edge, String> {
    let object = as_object(value)?;
    Ok(Edge {
        id: text(object, "id")?,
        from: text(object, "from")?,
        to: text(object, "to")?,
        kind: edge_kind(&text(object, "kind")?)?,
        label: optional_text(object, "label")?,
        bidirectional: object.get("bidirectional").and_then(Value::as_bool).unwrap_or(false),
    })
}

fn decode_note(value: &Value) -> Result<Note, String> {
    let object = as_object(value)?;
    Ok(Note {
        id: text(object, "id")?,
        text: text(object, "text")?,
        on: optional_text(object, "on")?,
    })
}

fn number(object: &serde_json::Map<String, Value>, key: &str) -> Result<f64, String> {
    match object.get(key) {
        Some(value) => value.as_f64().ok_or_else(|| format!("invalid type for `{key}`")),
        None => Err(format!("missing field `{key}`")),
    }
}

fn decode_entry(value: &Value) -> Result<LayoutEntry, String> {
    let object = as_object(value)?;
    let size = match object.get("size") {
        None | Some(Value::Null) => None,
        Some(size) => {
            let size = as_object(size)?;
            Some((number(size, "width")?, number(size, "height")?))
        }
    };
    Ok(entry(number(object, "x")?, number(object, "y")?, size))
}

fn records<T>(value: Option<&Value>, decode: fn(&Value) -> Result<T, String>) -> Records<T> {
    match value {
        Some(Value::Array(items)) => Records::Items(items.iter().map(decode).collect()),
        _ => Records::NotArray,
    }
}

fn sections(value: &Value) -> Option<Sections> {
    let object = value.as_object()?;
    Some(Sections {
        keys: object.keys().cloned().collect(),
        version: object.get("version").map(|v| Version {
            number: v.as_u64(),
            text: v.to_string(),
        }),
        design: match object.get("design") {
            None => Field::Missing,
            Some(value) => match as_object(value).and_then(|o| {
                Ok(Metadata {
                    title: text(o, "title")?,
                    description: optional_text(o, "description")?,
                })
            }) {
                Ok(metadata) => Field::Valid(metadata),
                Err(message) => Field::Invalid(message),
            },
        },
        containers: records(object.get("containers"), decode_container),
        nodes: records(object.get("nodes"), decode_node),
        edges: records(object.get("edges"), decode_edge),
        notes: records(object.get("notes"), decode_note),
        layout: match object.get("layout") {
            None => Positions::Missing,
            Some(Value::Object(entries)) => {
                Positions::Entries(entries.iter().map(|(id, value)| (id.clone(), decode_entry(value))).collect())
            }
            Some(_) => Positions::NotObject,
        },
    })
}

fn load_value(value: &Value) -> Result<Design, DesignError> {
    load_sections(sections(value))
}

fn load_text(text: &str) -> Result<Design, DesignError> {
    load_value(&serde_json::from_str::<Value>(text).unwrap())
}

fn problems(result: Result<Design, DesignError>) -> Vec<Problem> {
    match result {
        Err(DesignError::Validation(problems)) => problems,
        other => panic!("expected validation problems, got {other:?}"),
    }
}

fn set(value: &mut Value, key: &str, field: Value) {
    value.as_object_mut().unwrap().insert(key.into(), field);
}

fn full_design() -> Design {
    let mut design = checkout();
    design.containers.push(Container {
        id: "zone".into(),
        label: "Zone".into(),
        description: Some("A nested boundary".into()),
        parent: Some("vpc".into()),
    });
    let kinds = [
        NodeKind::Service,
        NodeKind::Database,
        NodeKind::Queue,
        NodeKind::Cache,
        NodeKind::Storage,
        NodeKind::Client,
        NodeKind::External,
        NodeKind::Function,
        NodeKind::Generic,
    ];
    for (index, kind) in kinds.into_iter().enumerate() {
        design.nodes.push(Node {
            id: format!("node-{index}"),
            kind,
            label: format!("Node {index}"),
            description: Some("Component".into()),
            tags: vec!["critical".into(), "checkout".into()],
            container: Some("zone".into()),
        });
    }
    for (index, kind) in [EdgeKind::Sync, EdgeKind::Async, EdgeKind::Data, EdgeKind::Dependency]
        .into_iter()
        .enumerate()
    {
        design.edges.push(Edge {
            id: format!("edge-{index}"),
            from: "api".into(),
            to: "zone".into(),
            kind,
            label: Some("Connection".into()),
            bidirectional: true,
        });
    }
    for (index, target) in [None, Some("api"), Some("zone"), Some("edge-0")].into_iter().enumerate() {
        design.notes.push(Note {
            id: format!("note-{index}"),
            text: "A callout with Unicode: café ☕".into(),
            on: target.map(str::to_owned),
        });
    }
    for (id, size) in [("zone", Some((640.5, 480.25))), ("vpc", None), ("note-0", None), ("edge-0", None)] {
        design.layout.insert(id.into(), entry(-10.5, 0.25, size));
    }
    design.containers.sort_by(|a, b| a.id.cmp(&b.id));
    design.nodes.sort_by(|a, b| a.id.cmp(&b.id));
    design.edges.sort_by(|a, b| a.id.cmp(&b.id));
    design.notes.sort_by(|a, b| a.id.cmp(&b.id));
    design
}

#[test]
fn fixture_matches_the_documented_example() {
    let mut design = load_text(EXAMPLE).unwrap();
    design.edges.sort_by(|a, b| a.id.cmp(&b.id));
    assert_eq!(design, checkout());
}

#[test]
fn unknown_version_names_found_and_supported_versions() {
    let mut value: Value = serde_json::from_str(EXAMPLE).unwrap();
    set(&mut value, "version", Value::from(7));
    let error = load_value(&value).unwrap_err();
    assert!(error.message().contains("unsupported version 7; supported version is 1"));
    assert_eq!(
        problems(Err(error)),
        vec![Problem::UnknownVersion {
            found: "7".into(),
            supported: 1
        }]
    );
}

#[test]
fn duplicate_missing_endpoint_and_cycle_are_reported_together() {
    let found = problems(load_text(MULTIPLE_PROBLEMS));
    assert_eq!(
        found,
        vec![
            Problem::DuplicateId { id: "api".into() },
            Problem::MissingReference {
                id: "persist".into(),
                field: "to",
                target: "missing-node".into()
            },
            Problem::ContainerCycle {
                ids: vec!["region".into(), "vpc".into()]
            },
        ]
    );
}

#[test]
fn unknown_keys_and_version_do_not_hide_model_problems() {
    let mut value: Value = serde_json::from_str(MULTIPLE_PROBLEMS).unwrap();
    set(&mut value, "version", Value::from(99));
    set(&mut value, "surprise", Value::Bool(true));
    set(&mut value, "another", Value::Object(serde_json::Map::new()));
    let found = problems(load_value(&value));
    assert_eq!(found.len(), 6);
    assert!(found.contains(&Problem::UnknownTopLevelKey { key: "surprise".into() }));
    assert!(found.contains(&Problem::UnknownTopLevelKey { key: "another".into() }));
}

#[test]
fn malformed_ids_are_rejected_in_memory_and_on_load() {
    for id in ["", "API", "two words", "-api", "api-", "has_underscore", "café", "a/b", "a.b"] {
        let design = Design {
            notes: vec![Note {
                id: id.into(),
                text: "note".into(),
                on: None,
            }],
            ..Design::default()
        };
        let expected = vec![Problem::InvalidId { id: id.into() }];
        assert_eq!(validate(&design), expected);
        let mut note = serde_json::Map::new();
        note.insert("id".into(), Value::String(id.into()));
        note.insert("text".into(), Value::String("note".into()));
        let mut title = serde_json::Map::new();
        title.insert("title".into(), Value::String("Ids".into()));
        let mut value = serde_json::Map::new();
        value.insert("version".into(), Value::from(1));
        value.insert("design".into(), Value::Object(title));
        value.insert("containers".into(), Value::Array(Vec::new()));
        value.insert("nodes".into(), Value::Array(Vec::new()));
        value.insert("edges".into(), Value::Array(Vec::new()));
        value.insert("notes".into(), Value::Array(vec![Value::Object(note)]));
        value.insert("layout".into(), Value::Object(serde_json::Map::new()));
        assert_eq!(problems(load_value(&Value::Object(value))), expected);
    }
    for id in ["a", "0", "api-2", "a--b", "123"] {
        let design = Design {
            notes: vec![Note {
                id: id.into(),
                text: "note".into(),
                on: None,
            }],
            ..Design::default()
        };
        assert!(validate(&design).is_empty(), "{id}");
    }
}

#[test]
fn duplicate_ids_are_global_across_all_element_types() {
    let mut design = full_design();
    design.containers[0].id = "shared".into();
    design.nodes[0].id = "shared".into();
    design.edges[0].id = "shared".into();
    design.notes[0].id = "shared".into();
    let found = design.validate();
    assert_eq!(
        found
            .iter()
            .filter(|problem| matches!(problem, Problem::DuplicateId { id } if id == "shared"))
            .count(),
        3
    );
}

#[test]
fn missing_references_include_membership_parents_endpoints_notes_and_layout() {
    let mut design = full_design();
    design.nodes[0].container = Some("gone".into());
    design.containers[1].parent = Some("gone".into());
    design.edges[0].from = "gone".into();
    design.edges[0].to = "gone".into();
    design.notes[0].on = Some("gone".into());
    design.layout.insert("gone".into(), entry(0.0, 0.0, None));
    let found = design.validate();
    assert_eq!(found.len(), 6);
    for field in ["container", "parent", "from", "to", "on", "layout"] {
        assert!(found.iter().any(|problem| matches!(problem, Problem::MissingReference { field: actual, target, .. } if *actual == field && target == "gone")));
    }
}

#[test]
fn existing_ids_must_have_the_correct_reference_type() {
    let mut design = full_design();
    design.nodes[0].container = Some("api".into());
    design.containers[1].parent = Some("api".into());
    design.edges[0].from = "note-0".into();
    design.edges[0].to = "edge-1".into();
    design.notes[0].on = Some("note-1".into());
    let found = design.validate();
    assert_eq!(found.len(), 5);
    assert!(found.iter().all(|problem| matches!(problem, Problem::InvalidReference { .. })));
}

#[test]
fn edges_allow_node_container_in_either_direction_but_not_two_containers() {
    let mut design = full_design();
    design.edges[0].from = "vpc".into();
    design.edges[0].to = "api".into();
    assert!(design.validate().is_empty());
    design.edges[0].to = "zone".into();
    assert_eq!(design.validate(), vec![Problem::InvalidEdge { id: "edge-0".into() }]);
}

#[test]
fn cycles_are_reported_once_each_including_self_cycles() {
    let mut design = Design::default();
    for (id, parent) in [("a", "b"), ("b", "c"), ("c", "b"), ("d", "d"), ("e", "f"), ("f", "e")] {
        design.containers.push(Container {
            id: id.into(),
            label: id.into(),
            description: None,
            parent: Some(parent.into()),
        });
    }
    assert_eq!(
        design.validate(),
        vec![
            Problem::ContainerCycle {
                ids: vec!["b".into(), "c".into()]
            },
            Problem::ContainerCycle { ids: vec!["d".into()] },
            Problem::ContainerCycle {
                ids: vec!["e".into(), "f".into()]
            },
        ]
    );
    design.containers.reverse();
    assert_eq!(design.validate().len(), 3);
}

#[test]
fn deeply_nested_containers_do_not_need_recursion() {
    let mut design = Design::default();
    for index in 0..10_000 {
        design.containers.push(Container {
            id: format!("c-{index}"),
            label: index.to_string(),
            description: None,
            parent: (index < 9_999).then(|| format!("c-{}", index + 1)),
        });
    }
    assert!(design.validate().is_empty());
}

#[test]
fn invalid_layout_cannot_be_saved_as_null_or_with_size_on_a_node() {
    let mut design = checkout();
    design.layout.insert("api".into(), entry(f64::NAN, 120.0, Some((f64::INFINITY, 10.0))));
    let found = design.validate();
    assert_eq!(found.len(), 3);
    assert!(found.iter().all(|problem| matches!(problem, Problem::InvalidLayout { id, .. } if id == "api")));
}

#[test]
fn malformed_records_do_not_hide_other_records_or_model_problems() {
    let mut value: Value = serde_json::from_str(MULTIPLE_PROBLEMS).unwrap();
    let bad: Value = serde_json::from_str(r#"{"id": "bad", "kind": "unknown-kind", "label": "Bad"}"#).unwrap();
    value["nodes"].as_array_mut().unwrap().push(bad);
    set(
        &mut value,
        "notes",
        serde_json::from_str(r#"[{"id": "bad-note"}, {"id": "orphan", "text": "Orphan", "on": "missing"}]"#).unwrap(),
    );
    set(
        &mut value,
        "layout",
        serde_json::from_str(r#"{"api": {"x": "left", "y": 0}, "orders": {"x": 0}, "missing": {"x": 0, "y": 0}}"#).unwrap(),
    );
    let found = problems(load_value(&value));
    assert_eq!(found.len(), 9);
    assert!(found.iter().any(|problem| matches!(problem, Problem::InvalidField { field, .. } if field == "nodes[4]")));
    assert!(found.iter().any(|problem| matches!(problem, Problem::InvalidField { field, .. } if field == "notes[0]")));
    for id in ["api", "orders"] {
        assert!(found
            .iter()
            .any(|problem| matches!(problem, Problem::InvalidField { field, .. } if *field == format!("layout.{id}"))));
    }
    assert!(found.contains(&Problem::MissingReference {
        id: "missing".into(),
        field: "layout",
        target: "missing".into(),
    }));
}

#[test]
fn missing_required_sections_wrong_types_invalid_json_and_io_errors_are_rejected() {
    assert_eq!(problems(load_value(&Value::Object(serde_json::Map::new()))).len(), 6);
    assert!(matches!(problems(load_value(&Value::Array(Vec::new()))).as_slice(), [Problem::InvalidField { field, .. }] if field == "document"));
    let mut value: Value = serde_json::from_str(EXAMPLE).unwrap();
    set(&mut value, "layout", serde_json::from_str(r#"{"api": {"x": "left", "y": 0}}"#).unwrap());
    assert!(matches!(problems(load_value(&value)).as_slice(), [Problem::InvalidField { field, .. }] if field == "layout.api"));
}

#[test]
fn omitted_layout_is_empty_but_explicit_invalid_layout_is_rejected() {
    let mut value: Value = serde_json::from_str(EXAMPLE).unwrap();
    value.as_object_mut().unwrap().remove("layout");
    let design = load_value(&value).unwrap();
    assert!(design.layout.is_empty());
    let mut expected = checkout();
    expected.layout.clear();
    let mut sorted = design;
    sorted.edges.sort_by(|a, b| a.id.cmp(&b.id));
    assert_eq!(sorted, expected);
    for invalid in [Value::Null, Value::Array(Vec::new()), Value::String("positions".into()), Value::from(12)] {
        set(&mut value, "layout", invalid);
        assert!(matches!(problems(load_value(&value)).as_slice(), [Problem::InvalidField { field, .. }] if field == "layout"));
    }
}

#[test]
fn empty_design_round_trips() {
    let design = Design {
        title: "Empty".into(),
        ..Design::default()
    };
    assert!(design.validate().is_empty());
    let saved = save_document(&design).unwrap();
    assert_eq!(saved.version, VERSION);
    assert_eq!(saved.design.title, "Empty");
    assert!(saved.nodes.is_empty() && saved.containers.is_empty() && saved.edges.is_empty() && saved.notes.is_empty());
}

#[test]
fn document_sorts_records_without_changing_the_design() {
    let mut design = full_design();
    design.containers.reverse();
    design.nodes.reverse();
    design.edges.reverse();
    design.notes.reverse();
    let before = design.clone();
    let doc = document(&design);
    let ids: Vec<&str> = doc.nodes.iter().map(|n| n.id.as_str()).collect();
    let mut sorted = ids.clone();
    sorted.sort();
    assert_eq!(ids, sorted);
    assert_eq!(doc.edges.iter().map(|e| e.id.as_str()).collect::<Vec<_>>(), ["edge-0", "edge-1", "edge-2", "edge-3", "persist", "place-order"]);
    assert_eq!(doc.containers.iter().map(|c| c.id.as_str()).collect::<Vec<_>>(), ["vpc", "zone"]);
    drop(doc);
    assert_eq!(design, before);
}

#[test]
fn invalid_designs_are_not_saved_and_every_problem_is_reported() {
    let mut design = checkout();
    design.edges[0].to = "missing".into();
    match save_document(&design) {
        Err(DesignError::Validation(found)) => assert_eq!(
            found,
            vec![Problem::MissingReference {
                id: "persist".into(),
                field: "to",
                target: "missing".into()
            }]
        ),
        other => panic!("expected validation problems, got {other:?}"),
    }
}

#[test]
fn the_documented_example_loads_and_validates() {
    let design = load_text(EXAMPLE).unwrap();
    assert_eq!(design.title, "Checkout");
    assert!(design.validate().is_empty());
    assert_eq!(design.layout.get("api"), Some(entry(320.0, 120.0, None)));
}

#[test]
fn saved_design_reads_back_in_id_order() {
    let mut design = full_design();
    design.containers.reverse();
    design.nodes.reverse();
    design.edges.reverse();
    design.notes.reverse();
    let doc = save_document(&design).unwrap();
    let sections = Sections {
        keys: ["containers", "design", "edges", "layout", "nodes", "notes", "version"].map(String::from).to_vec(),
        version: Some(Version {
            number: Some(VERSION),
            text: VERSION.to_string(),
        }),
        design: Field::Valid(Metadata {
            title: doc.design.title.clone(),
            description: doc.design.description.clone(),
        }),
        containers: Records::Items(doc.containers.iter().map(|r| Ok((*r).clone())).collect()),
        nodes: Records::Items(doc.nodes.iter().map(|r| Ok((*r).clone())).collect()),
        edges: Records::Items(doc.edges.iter().map(|r| Ok((*r).clone())).collect()),
        notes: Records::Items(doc.notes.iter().map(|r| Ok((*r).clone())).collect()),
        layout: Positions::Entries(doc.layout.items().iter().map(|(id, e)| (id.clone(), Ok(*e))).collect()),
    };
    let read = load_sections(Some(sections)).unwrap();
    assert_eq!(read, full_design());
    let again = document(&read);
    assert_eq!(again.nodes, doc.nodes);
    assert_eq!(again.containers, doc.containers);
    assert_eq!(again.edges, doc.edges);
    assert_eq!(again.notes, doc.notes);
    assert_eq!(again.layout, doc.layout);
    assert_eq!(again.design, doc.design);
}

#[test]
fn validity_does_not_depend_on_element_order() {
    let mut design = full_design();
    assert!(validate(&design).is_empty());
    design.containers.reverse();
    design.nodes.reverse();
    design.edges.reverse();
    design.notes.reverse();
    assert!(validate(&design).is_empty());
    design.nodes.swap(0, 3);
    design.edges.swap(1, 4);
    assert!(validate(&design).is_empty());
    design.edges[0].to = "missing".into();
    assert!(!validate(&design).is_empty());
}

#[test]
fn only_the_integer_version_one_is_accepted() {
    let mut value: Value = serde_json::from_str(EXAMPLE).unwrap();
    set(&mut value, "version", Value::from(1));
    assert!(load_value(&value).is_ok());
    for (found, text) in [
        (Value::from(2), "2"),
        (Value::from(0), "0"),
        (Value::from(-1), "-1"),
        (Value::from(1.5), "1.5"),
        (Value::String("1".into()), "\"1\""),
        (Value::Null, "null"),
    ] {
        set(&mut value, "version", found);
        assert_eq!(
            problems(load_value(&value)),
            vec![Problem::UnknownVersion {
                found: text.into(),
                supported: 1
            }]
        );
    }
    value.as_object_mut().unwrap().remove("version");
    assert_eq!(
        problems(load_value(&value)),
        vec![Problem::InvalidField {
            field: "version".into(),
            message: "missing field".into()
        }]
    );
}
