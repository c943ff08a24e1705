use sysy::edit::{ContainerUpdate, DesignUpdate, EdgeUpdate, NodeUpdate, NoteUpdate, OptionalUpdate};
use sysy::error::DesignError;
use sysy::id_map::IdMap;
use sysy::model::{Container, Design, Edge, EdgeKind, LayoutEntry, Node, NodeKind, Note};

fn entry(x: f64, y: f64) -> LayoutEntry {
    LayoutEntry {
        x: x.to_bits(),
        y: y.to_bits(),
        size: None,
    }
}

fn node(id: &str, kind: NodeKind, label: &str, container: Option<&str>) -> Node {
    Node {
        id: id.into(),
        kind,
        label: label.into(),
        description: None,
        tags: Vec::new(),
        container: container.map(str::to_owned),
    }
}

fn fixture() -> Design {
    let mut layout = IdMap::new();
    layout.insert("api".into(), entry(320.0, 120.0));
    Design {
        title: "Checkout".into(),
        description: Some("Order placement path.".into()),
        containers: vec![Container {
            id: "vpc".into(),
            label: "Production VPC".into(),
            description: None,
            parent: None,
        }],
        nodes: vec![
            node("api", NodeKind::Service, "Checkout API", Some("vpc")),
            node("orders", NodeKind::Database, "Orders DB", Some("vpc")),
            node("shopper", NodeKind::Client, "Shopper", None),
        ],
        edges: vec![
            Edge {
                id: "persist".into(),
                from: "api".into(),
                to: "orders".into(),
                kind: EdgeKind::Data,
                label: None,
                bidirectional: false,
            },
            Edge {
                id: "place-order".into(),
                from: "shopper".into(),
                to: "api".into(),
                kind: EdgeKind::Sync,
                label: Some("POST /orders".into()),
                bidirectional: false,
            },
        ],
        notes: Vec::new(),
        layout,
    }
}

#[test]
fn rejected_additions_preserve_the_callers_design() {
    let mut design = fixture();
    let before = design.clone();
    let mut node = design.nodes[0].clone();
    node.id = "vpc".into();
    assert!(design.add_node(node).is_err());
    assert_eq!(design, before);
    assert!(design
        .add_container(Container {
            id: "api".into(),
            label: "Duplicate".into(),
            description: None,
            parent: None,
        })
        .is_err());
    assert_eq!(design, before);
    assert!(design
        .add_note(Note {
            id: "api".into(),
            text: "Duplicate".into(),
            on: None,
        })
        .is_err());
    assert_eq!(design, before);
    let error = design
        .add_edge(Edge {
            id: "broken".into(),
            from: "missing-source".into(),
            to: "missing-target".into(),
            kind: EdgeKind::Sync,
            label: None,
            bidirectional: false,
        })
        .unwrap_err();
    let DesignError::Validation(problems) = error else {
        panic!("expected validation problems")
    };
    assert_eq!(problems.len(), 2);
    assert_eq!(design, before);
}

#[test]
fn rejected_updates_preserve_every_field_and_layout() {
    let mut design = fixture();
    design
        .add_note(Note {
            id: "note".into(),
            text: "Original".into(),
            on: Some("api".into()),
        })
        .unwrap();
    let before = design.clone();
    assert!(design
        .set_node(
            "api",
            NodeUpdate {
                label: Some("Changed".into()),
                container: OptionalUpdate::Replace("missing".into()),
                ..NodeUpdate::default()
            }
        )
        .is_err());
    assert_eq!(design, before);
    assert!(design
        .set_container(
            "vpc",
            ContainerUpdate {
                parent: OptionalUpdate::Replace("vpc".into()),
                ..ContainerUpdate::default()
            }
        )
        .is_err());
    assert_eq!(design, before);
    assert!(design
        .set_edge(
            "persist",
            EdgeUpdate {
                from: Some("missing".into()),
                ..EdgeUpdate::default()
            }
        )
        .is_err());
    assert_eq!(design, before);
    assert!(design
        .set_note(
            "note",
            NoteUpdate {
                text: Some("Changed".into()),
                on: OptionalUpdate::Replace("missing".into()),
            }
        )
        .is_err());
    assert_eq!(design, before);
}

#[test]
fn removals_validate_the_whole_candidate_before_committing() {
    let mut design = fixture();
    design
        .add_note(Note {
            id: "note".into(),
            text: "Original".into(),
            on: Some("api".into()),
        })
        .unwrap();
    // A viewer can have unsaved invalid state, unlike a CLI that just loaded.
    design.layout.insert("missing".into(), entry(1.0, 2.0));
    let before = design.clone();
    assert!(design.remove_node("api").is_err());
    assert_eq!(design, before);
    assert!(design.remove_container("vpc").is_err());
    assert_eq!(design, before);
    assert!(design.remove_edge("persist").is_err());
    assert_eq!(design, before);
    assert!(design.remove_note("note").is_err());
    assert_eq!(design, before);
}

#[test]
fn design_metadata_updates_preserve_architecture_and_layout() {
    let mut design = fixture();
    let original = design.clone();
    let returned = design
        .set(DesignUpdate {
            title: Some("Revised checkout".into()),
            ..Default::default()
        })
        .unwrap();
    assert_eq!(returned, design);
    assert_eq!(design.title, "Revised checkout");
    assert_eq!(design.description, original.description);
    design
        .set(DesignUpdate {
            description: OptionalUpdate::Replace("New scope".into()),
            ..Default::default()
        })
        .unwrap();
    assert_eq!(design.description.as_deref(), Some("New scope"));
    design
        .set(DesignUpdate {
            description: OptionalUpdate::Clear,
            ..Default::default()
        })
        .unwrap();
    assert_eq!(design.description, None);
    assert_eq!(design.nodes, original.nodes);
    assert_eq!(design.containers, original.containers);
    assert_eq!(design.edges, original.edges);
    assert_eq!(design.notes, original.notes);
    assert_eq!(design.layout, original.layout);
    let before = design.clone();
    assert_eq!(design.set(DesignUpdate::default()).unwrap(), before);
    design.nodes[0].container = Some("missing".into());
    let before = design.clone();
    assert!(design
        .set(DesignUpdate {
            title: Some("Rejected".into()),
            ..Default::default()
        })
        .is_err());
    assert_eq!(design, before);
}

#[test]
fn removing_a_node_removes_its_edges_notes_and_layout_entries() {
    let mut design = fixture();
    design
        .add_note(Note {
            id: "on-api".into(),
            text: "About the API".into(),
            on: Some("api".into()),
        })
        .unwrap();
    design
        .add_note(Note {
            id: "on-persist".into(),
            text: "About persistence".into(),
            on: Some("persist".into()),
        })
        .unwrap();
    design.layout.insert("on-api".into(), entry(1.0, 1.0));
    let removed = design.remove_node("api").unwrap();
    assert_eq!(removed.id, "api");
    assert!(design.nodes.iter().all(|n| n.id != "api"));
    assert!(design.edges.is_empty());
    assert!(design.notes.is_empty());
    assert!(design.layout.is_empty());
    assert!(design.validate().is_empty());
}

#[test]
fn removing_a_container_moves_its_children_to_its_parent() {
    let mut design = fixture();
    design
        .add_container(Container {
            id: "region".into(),
            label: "Region".into(),
            description: None,
            parent: None,
        })
        .unwrap();
    design
        .set_container(
            "vpc",
            ContainerUpdate {
                parent: OptionalUpdate::Replace("region".into()),
                ..ContainerUpdate::default()
            },
        )
        .unwrap();
    design.remove_container("vpc").unwrap();
    for id in ["api", "orders"] {
        let node = design.nodes.iter().find(|n| n.id == id).unwrap();
        assert_eq!(node.container.as_deref(), Some("region"));
    }
    assert_eq!(design.containers.len(), 1);
    assert!(design.validate().is_empty());
}

#[test]
fn edits_of_missing_elements_are_not_found() {
    let mut design = fixture();
    let before = design.clone();
    for result in [
        design.set_node("missing", NodeUpdate::default()).map(|_| ()),
        design.remove_edge("missing").map(|_| ()),
        design.remove_note("missing").map(|_| ()),
    ] {
        match result {
            Err(DesignError::NotFound { id, .. }) => assert_eq!(id, "missing"),
            other => panic!("expected not found, got {other:?}"),
        }
    }
    match design.remove_container("missing") {
        Err(error) => assert_eq!(error.message(), "container 'missing' does not exist"),
        Ok(_) => panic!("expected not found"),
    }
    assert_eq!(design, before);
}

#[test]
fn updates_change_only_supplied_fields_and_lists_are_sorted() {
    let mut design = fixture();
    let updated = design
        .set_node(
            "api",
            NodeUpdate {
                tags: Some(vec!["public".into()]),
                description: OptionalUpdate::Replace("Accepts orders".into()),
                ..NodeUpdate::default()
            },
        )
        .unwrap();
    assert_eq!(updated.label, "Checkout API");
    assert_eq!(updated.tags, vec!["public".to_string()]);
    assert_eq!(updated.container.as_deref(), Some("vpc"));
    design
        .add_node(node("cache", NodeKind::Cache, "Cache", None))
        .unwrap();
    let ids: Vec<&str> = design.list_nodes().iter().map(|n| n.id.as_str()).collect();
    assert_eq!(ids, ["api", "cache", "orders", "shopper"]);
    let edge = design
        .set_edge(
            "persist",
            EdgeUpdate {
                bidirectional: Some(true),
                label: OptionalUpdate::Replace("Save".into()),
                ..EdgeUpdate::default()
            },
        )
        .unwrap();
    assert!(edge.bidirectional);
    assert_eq!(edge.to, "orders");
}
