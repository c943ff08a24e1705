use sysy::cli::{count_message, design_summary, optional, tags_update};
use sysy::edit::OptionalUpdate;
use sysy::error::DesignError;
use sysy::id_map::IdMap;
use sysy::model::{Container, Design, Edge, EdgeKind, Node, NodeKind, Note};
use sysy::validation::Problem;

fn node(id: &str, kind: NodeKind, label: &str, container: Option<&str>) -> Node {
    Node {
        id: id.into(),
        kind,
        label: label.into(),
        description: None,
        tags: Vec::new(),
        container: container.map(str::to_owned),
    }
}

fn checkout() -> Design {
    Design {
        title: "Checkout".into(),
        description: Some("Order placement path.".into()),
        containers: vec![Container {
            id: "vpc".into(),
            label: "Production VPC".into(),
            description: None,
            parent: None,
        }],
        nodes: vec![
            node("shopper", NodeKind::Client, "Shopper", None),
            node("orders", NodeKind::Database, "Orders DB", Some("vpc")),
            node("api", NodeKind::Service, "Checkout API", Some("vpc")),
        ],
        edges: vec![
            Edge {
                id: "place-order".into(),
                from: "shopper".into(),
                to: "api".into(),
                kind: EdgeKind::Sync,
                label: Some("POST /orders".into()),
                bidirectional: false,
            },
            Edge {
                id: "persist".into(),
                from: "api".into(),
                to: "orders".into(),
                kind: EdgeKind::Data,
                label: None,
                bidirectional: false,
            },
        ],
        notes: Vec::new(),
        layout: IdMap::new(),
    }
}

#[test]
fn optional_flags_keep_replace_or_clear() {
    assert!(matches!(optional::<String>(None, false), OptionalUpdate::Keep));
    assert!(matches!(optional(Some("x".to_string()), false), OptionalUpdate::Replace(v) if v == "x"));
    assert!(matches!(optional(Some("x".to_string()), true), OptionalUpdate::Clear));
    assert!(matches!(optional::<String>(None, true), OptionalUpdate::Clear));
}

#[test]
fn tag_flags_replace_clear_or_keep() {
    assert_eq!(tags_update(Vec::new(), false), None);
    assert_eq!(tags_update(Vec::new(), true), Some(Vec::new()));
    assert_eq!(tags_update(vec!["a".into()], false), Some(vec!["a".to_string()]));
    assert_eq!(count_message(3, "nodes"), "3 nodes");
    assert_eq!(count_message(0, "notes"), "0 notes");
}

#[test]
fn summary_nests_containers_and_lists_edges_and_notes() {
    let mut design = checkout();
    design.containers.push(Container {
        id: "zone".into(),
        label: "Zone".into(),
        description: None,
        parent: Some("vpc".into()),
    });
    design.nodes.push(node("cache", NodeKind::Cache, "Cache", Some("zone")));
    design.edges[1].bidirectional = true;
    design.notes.push(Note {
        id: "free".into(),
        text: "Loose".into(),
        on: None,
    });
    design.notes.push(Note {
        id: "attached".into(),
        text: "On the API".into(),
        on: Some("api".into()),
    });
    assert!(design.validate().is_empty());
    assert_eq!(
        design_summary(&design),
        [
            "Checkout",
            "Order placement path.",
            "Production VPC [vpc]",
            "  Zone [zone]",
            "    Cache [cache] (cache)",
            "  Checkout API [api] (service)",
            "  Orders DB [orders] (database)",
            "Shopper [shopper] (client)",
            "Edges:",
            "  api <-> orders (data)",
            "  shopper -> api (sync): POST /orders",
            "Notes:",
            "  attached (on api): On the API",
            "  free: Loose",
        ]
        .join("\n")
    );
}

#[test]
fn summary_of_an_empty_design_has_only_headings() {
    let design = Design {
        title: "Empty".into(),
        ..Design::default()
    };
    assert_eq!(design_summary(&design), "Empty\nEdges:\nNotes:");
}

#[test]
fn problems_read_as_sentences() {
    assert_eq!(
        Problem::MissingReference {
            id: "persist".into(),
            field: "to",
            target: "missing".into()
        }
        .message(),
        "element 'persist' has to reference to missing element 'missing'"
    );
    assert_eq!(
        Problem::InvalidReference {
            id: "api".into(),
            field: "container",
            target: "orders".into(),
            expected: "container"
        }
        .message(),
        "element 'api' has container reference to 'orders'; expected container"
    );
    assert_eq!(
        Problem::ContainerCycle {
            ids: vec!["b".into(), "c".into()]
        }
        .message(),
        "container parent cycle: [\"b\", \"c\"]"
    );
    assert_eq!(
        Problem::InvalidId { id: "API".into() }.message(),
        "invalid id 'API': expected lowercase letters, digits, and inner hyphens"
    );
    assert_eq!(
        Problem::UnknownVersion {
            found: "2".into(),
            supported: 1
        }
        .message(),
        "unsupported version 2; supported version is 1"
    );
    assert_eq!(
        Problem::InvalidField {
            field: "nodes[4]".into(),
            message: "missing field `label`".into()
        }
        .message(),
        "invalid field 'nodes[4]': missing field `label`"
    );
}

#[test]
fn errors_read_as_sentences() {
    let error = DesignError::Validation(vec![
        Problem::DuplicateId { id: "api".into() },
        Problem::InvalidEdge { id: "link".into() },
    ]);
    assert_eq!(
        error.message(),
        "invalid design:\nduplicate id 'api'\nedge 'link' connects two containers; at least one endpoint must be a node"
    );
    let missing = DesignError::NotFound {
        kind: "edge",
        id: "persist".into(),
    };
    assert_eq!(missing.message(), "edge 'persist' does not exist");
    let parse = serde_json::from_str::<serde_json::Value>("{").unwrap_err();
    assert!(DesignError::Json(parse).message().starts_with("invalid JSON: "));
}
