use sysy::id_map::IdMap;
use sysy::layer_order::order_layer;
use sysy::layers::{break_cycles, layer_graph, reachable, Arc, LayerGraph, Vertex};
use sysy::model::{Container, Design, Edge, EdgeKind, Node, NodeKind};

fn node(id: &str, container: Option<&str>) -> Node {
    Node {
        id: id.into(),
        kind: NodeKind::Service,
        label: id.to_uppercase(),
        description: None,
        tags: Vec::new(),
        container: container.map(str::to_owned),
    }
}

fn edge(id: &str, from: &str, to: &str) -> Edge {
    Edge {
        id: id.into(),
        from: from.into(),
        to: to.into(),
        kind: EdgeKind::Sync,
        label: None,
        bidirectional: false,
    }
}

fn arc(id: &str, from: &str, to: &str) -> Arc {
    Arc {
        id: id.into(),
        from: from.into(),
        to: to.into(),
    }
}

fn design(containers: Vec<Container>, nodes: Vec<Node>, edges: Vec<Edge>) -> Design {
    let design = Design {
        title: "Graph".into(),
        description: None,
        containers,
        nodes,
        edges,
        notes: Vec::new(),
        layout: IdMap::new(),
    };
    assert!(design.validate().is_empty());
    design
}

fn layers(graph: &LayerGraph) -> Vec<Vec<&str>> {
    graph
        .layers
        .iter()
        .map(|layer| layer.iter().map(String::as_str).collect())
        .collect()
}

fn cycle() -> Design {
    design(
        Vec::new(),
        ["a", "b", "c", "d"].into_iter().map(|id| node(id, None)).collect(),
        vec![edge("zzz-middle", "a", "b"), edge("bc", "b", "c"), edge("cd", "c", "d"), edge("da", "d", "a")],
    )
}

#[test]
fn cycle_removal_uses_edge_id_instead_of_traversal_order() {
    let mut design = cycle();
    let graph = layer_graph(&design);
    assert_eq!(layers(&graph), vec![vec!["b"], vec!["c"], vec!["d"], vec!["a"]]);
    assert!(graph.arcs.iter().all(|arc| arc.id != "zzz-middle"));
    let mut self_edge = design.edges[0].clone();
    self_edge.id = "self".into();
    self_edge.to = self_edge.from.clone();
    design.edges.push(self_edge);
    assert_eq!(layers(&layer_graph(&design)), layers(&graph));
    for edge in &mut design.edges {
        edge.bidirectional = true;
    }
    assert_eq!(layers(&layer_graph(&design)), layers(&graph));
}

#[test]
fn layers_follow_the_longest_path() {
    let design = design(
        Vec::new(),
        ["a", "b", "c", "d"].into_iter().map(|id| node(id, None)).collect(),
        vec![edge("ab", "a", "b"), edge("bc", "b", "c"), edge("ac", "a", "c"), edge("ad", "a", "d")],
    );
    let graph = layer_graph(&design);
    assert_eq!(layers(&graph), vec![vec!["a"], vec!["b", "d"], vec!["c"]]);
}

#[test]
fn container_endpoints_stand_for_their_contents_and_empty_containers_for_themselves() {
    let containers = vec![
        Container {
            id: "box".into(),
            label: "Box".into(),
            description: None,
            parent: None,
        },
        Container {
            id: "empty".into(),
            label: "Empty".into(),
            description: None,
            parent: None,
        },
        Container {
            id: "inner".into(),
            label: "Inner".into(),
            description: None,
            parent: Some("box".into()),
        },
    ];
    let nodes = vec![node("x", Some("box")), node("y", Some("inner")), node("z", None)];
    let design = design(containers, nodes, vec![edge("in", "z", "box"), edge("out", "z", "empty")]);
    let graph = layer_graph(&design);
    let vertices: Vec<(&str, Vec<&str>)> = graph
        .vertices
        .iter()
        .map(|v| (v.id.as_str(), v.path.iter().map(String::as_str).collect()))
        .collect();
    assert_eq!(vertices, vec![("empty", vec![]), ("x", vec!["box"]), ("y", vec!["box", "inner"]), ("z", vec![])]);
    let arcs: Vec<(&str, &str, &str)> =
        graph.arcs.iter().map(|a| (a.id.as_str(), a.from.as_str(), a.to.as_str())).collect();
    assert_eq!(arcs, vec![("in", "z", "x"), ("in", "z", "y"), ("out", "z", "empty")]);
    assert_eq!(layers(&graph), vec![vec!["z"], vec!["empty", "x", "y"]]);
}

#[test]
fn reachability_follows_arcs_and_includes_the_start() {
    let arcs = vec![arc("ab", "a", "b"), arc("bc", "b", "c"), arc("xy", "x", "y")];
    assert!(reachable(&arcs, "a", "c"));
    assert!(reachable(&arcs, "q", "q"));
    assert!(!reachable(&arcs, "c", "a"));
    assert!(!reachable(&arcs, "a", "y"));
}

#[test]
fn breaking_cycles_drops_every_arc_of_the_last_edge_on_a_cycle() {
    let mut arcs = vec![arc("ab", "a", "b"), arc("ba", "b", "a"), arc("bc", "b", "c"), arc("cc", "c", "c")];
    break_cycles(&mut arcs);
    let ids: Vec<&str> = arcs.iter().map(|a| a.id.as_str()).collect();
    assert_eq!(ids, ["ab", "bc"]);
}

#[test]
fn breaking_cycles_drops_an_edge_whole_and_keeps_the_rest_in_order() {
    let mut arcs = vec![arc("a", "p", "q"), arc("m", "r", "s"), arc("z", "q", "p"), arc("z", "q", "r"), arc("n", "s", "t")];
    break_cycles(&mut arcs);
    let kept: Vec<(&str, &str, &str)> = arcs.iter().map(|a| (a.id.as_str(), a.from.as_str(), a.to.as_str())).collect();
    assert_eq!(kept, [("a", "p", "q"), ("m", "r", "s"), ("n", "s", "t")]);
}

fn graph_text(graph: &LayerGraph) -> (Vec<(String, Vec<String>)>, Vec<(String, String, String)>, Vec<Vec<String>>) {
    (
        graph.vertices.iter().map(|v| (v.id.clone(), v.path.clone())).collect(),
        graph.arcs.iter().map(|a| (a.id.clone(), a.from.clone(), a.to.clone())).collect(),
        graph.layers.clone(),
    )
}

#[test]
fn element_order_changes_neither_the_layers_nor_the_sorted_records() {
    let containers = vec![
        Container {
            id: "outer".into(),
            label: "Outer".into(),
            description: None,
            parent: None,
        },
        Container {
            id: "inner".into(),
            label: "Inner".into(),
            description: None,
            parent: Some("outer".into()),
        },
    ];
    let nodes = vec![node("a", Some("inner")), node("b", Some("outer")), node("c", None), node("d", None)];
    let edges = vec![edge("ab", "a", "b"), edge("bc", "b", "c"), edge("ca", "c", "a"), edge("od", "outer", "d")];
    let forward = design(containers.clone(), nodes.clone(), edges.clone());
    let mut backward = design(
        containers.into_iter().rev().collect(),
        nodes.into_iter().rev().collect(),
        edges.into_iter().rev().collect(),
    );
    assert_eq!(graph_text(&layer_graph(&forward)), graph_text(&layer_graph(&backward)));
    let ids = |design: &Design| -> Vec<String> { design.list_edges().iter().map(|e| e.id.clone()).collect() };
    assert_eq!(ids(&forward), ids(&backward));
    assert_eq!(forward.list_nodes(), backward.list_nodes());
    assert_eq!(forward.list_containers(), backward.list_containers());
    backward.edges.swap(0, 3);
    assert_eq!(graph_text(&layer_graph(&forward)), graph_text(&layer_graph(&backward)));
}

fn vertex(id: &str, path: &[&str]) -> Vertex {
    Vertex {
        id: id.into(),
        path: path.iter().map(|p| p.to_string()).collect(),
    }
}

#[test]
fn layer_order_keeps_container_groups_together_and_breaks_ties_by_id() {
    let layer = vec![vertex("a", &["box"]), vertex("b", &[]), vertex("c", &["box"])];
    let mut groups = IdMap::new();
    groups.insert("box".to_string(), 0u64);
    assert_eq!(order_layer(&layer, &vec![0, 1, 2], &groups), vec![0, 2, 1]);
    groups.insert("box".to_string(), 5u64);
    assert_eq!(order_layer(&layer, &vec![0, 1, 2], &groups), vec![1, 0, 2]);
    assert_eq!(order_layer(&layer, &vec![3, 1, 3], &groups), vec![1, 0, 2]);
    let nested = vec![
        vertex("x", &["outer", "inner"]),
        vertex("y", &["outer"]),
        vertex("z", &[]),
        vertex("w", &["outer", "inner"]),
    ];
    let mut ranks = IdMap::new();
    ranks.insert("outer".to_string(), 1u64);
    ranks.insert("inner".to_string(), 2u64);
    let order = order_layer(&nested, &vec![9, 0, 1, 0], &ranks);
    assert_eq!(order, vec![1, 3, 0, 2]);
    assert!(order_layer(&Vec::new(), &Vec::new(), &ranks).is_empty());
}
