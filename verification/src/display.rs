//! Text shown to people: kind names, the viewer's detail fields, and the
//! plain summary of a design.

use vstd::prelude::*;

use crate::edit::{
    container_ids, container_position, edge_ids, edge_position, first_position, node_ids,
    node_position, note_ids, note_position,
};
use crate::model::{views, Design, DesignView, EdgeKind, EdgeView, NodeKind};
use crate::text::{joined, str_eq};

verus! {

pub open spec fn spec_node_kind_name(kind: NodeKind) -> Seq<char> {
    match kind {
        NodeKind::Service => "service"@,
        NodeKind::Database => "database"@,
        NodeKind::Queue => "queue"@,
        NodeKind::Cache => "cache"@,
        NodeKind::Storage => "storage"@,
        NodeKind::Client => "client"@,
        NodeKind::External => "external"@,
        NodeKind::Function => "function"@,
        NodeKind::Generic => "generic"@,
    }
}

pub open spec fn spec_edge_kind_name(kind: EdgeKind) -> Seq<char> {
    match kind {
        EdgeKind::Sync => "sync"@,
        EdgeKind::Async => "async"@,
        EdgeKind::Data => "data"@,
        EdgeKind::Dependency => "dependency"@,
    }
}

/// The lowercase name of a node kind, as written in design files.
pub fn node_kind_name(kind: NodeKind) -> (name: &'static str)
    ensures
        name@ == spec_node_kind_name(kind),
{
    match kind {
        NodeKind::Service => "service",
        NodeKind::Database => "database",
        NodeKind::Queue => "queue",
        NodeKind::Cache => "cache",
        NodeKind::Storage => "storage",
        NodeKind::Client => "client",
        NodeKind::External => "external",
        NodeKind::Function => "function",
        NodeKind::Generic => "generic",
    }
}

/// The lowercase name of an edge kind, as written in design files.
pub fn edge_kind_name(kind: EdgeKind) -> (name: &'static str)
    ensures
        name@ == spec_edge_kind_name(kind),
{
    match kind {
        EdgeKind::Sync => "sync",
        EdgeKind::Async => "async",
        EdgeKind::Data => "data",
        EdgeKind::Dependency => "dependency",
    }
}

/// The parts joined by `sep`.
pub open spec fn join(parts: Seq<Seq<char>>, sep: Seq<char>) -> Seq<char>
    decreases parts.len(),
{
    if parts.len() == 0 {
        Seq::empty()
    } else if parts.len() == 1 {
        parts[0]
    } else {
        join(parts.drop_last(), sep) + sep + parts.last()
    }
}

/// Join the strings with a separator.
pub fn join_strings(parts: &Vec<String>, sep: &str) -> (out: String)
    ensures
        out@ == join(parts.deep_view(), sep@),
{
    let mut out = String::new();
    let ghost v = parts.deep_view();
    for i in 0..parts.len()
        invariant
            v == parts.deep_view(),
            out@ == join(v.take(i as int), sep@),
    {
        proof {
            assert(v.take(i + 1).drop_last() =~= v.take(i as int));
            assert(v.take(i + 1).last() == v[i as int]);
        }
        if i > 0 {
            out.append(sep);
        } else {
            proof {
                assert(out@ =~= Seq::<char>::empty());
            }
        }
        out.append(parts[i].as_str());
        proof {
            if i == 0 {
                assert(out@ =~= v.take(1)[0]);
            }
        }
    }
    proof {
        assert(v.take(v.len() as int) =~= v);
    }
    out
}

/// A value shown in the detail panel: empty text reads "None".
pub open spec fn or_none(value: Seq<char>) -> Seq<char> {
    if value.len() == 0 {
        "None"@
    } else {
        value
    }
}

/// One edge in the detail panel's list of connections.
pub open spec fn connection_line(e: EdgeView) -> Seq<char> {
    e.id + ": "@ + e.from + " "@ + (if e.bidirectional {
        "↔"@
    } else {
        "→"@
    }) + " "@ + e.to + " ("@ + spec_edge_kind_name(e.kind) + ")"@ + match e.label {
        Some(label) => " — "@ + label,
        None => Seq::empty(),
    }
}

/// The connections of element `id`: the edge itself, and edges that start or end at it.
pub open spec fn connections(edges: Seq<EdgeView>, id: Seq<char>) -> Seq<Seq<char>>
    decreases edges.len(),
{
    if edges.len() == 0 {
        Seq::empty()
    } else {
        let e = edges.last();
        let rest = connections(edges.drop_last(), id);
        if e.id == id || e.from == id || e.to == id {
            rest.push(connection_line(e))
        } else {
            rest
        }
    }
}

/// The shared tail of every detail list.
pub open spec fn detail_tail(
    d: DesignView,
    id: Seq<char>,
    kind: Seq<char>,
    text: Seq<char>,
    description: Seq<char>,
    tags: Seq<char>,
) -> Seq<(Seq<char>, Seq<char>)> {
    seq![
        ("Kind"@, or_none(kind)),
        ("Label"@, or_none(text)),
        ("Description"@, or_none(description)),
        ("Tags"@, or_none(tags)),
        ("Connections"@, or_none(join(connections(d.edges, id), "\n"@))),
    ]
}

pub open spec fn text_or_empty(value: Option<Seq<char>>) -> Seq<char> {
    match value {
        Some(v) => v,
        None => Seq::empty(),
    }
}

/// The detail fields of element `id`, looked up as a node, a container, an
/// edge, then a note; `None` when no element has that id.
pub open spec fn spec_detail_text(d: DesignView, id: Seq<char>) -> Option<Seq<(Seq<char>, Seq<char>)>> {
    let head = seq![("Id"@, id)];
    match first_position(node_ids(d.nodes), id) {
        Some(i) => {
            let n = d.nodes[i];
            Some(head + detail_tail(d, id, spec_node_kind_name(n.kind), n.label, text_or_empty(n.description), join(n.tags, ", "@)))
        },
        None => match first_position(container_ids(d.containers), id) {
            Some(i) => {
                let c = d.containers[i];
                Some(head + detail_tail(d, id, "container"@, c.label, text_or_empty(c.description), Seq::empty()))
            },
            None => match first_position(edge_ids(d.edges), id) {
                Some(i) => {
                    let e = d.edges[i];
                    let direction = if e.bidirectional {
                        "bidirectional"@
                    } else {
                        "one way"@
                    };
                    Some(head.push(("Direction"@, direction)) + detail_tail(d, id, spec_edge_kind_name(e.kind), text_or_empty(e.label), Seq::empty(), Seq::empty()))
                },
                None => match first_position(note_ids(d.notes), id) {
                    Some(i) => {
                        let n = d.notes[i];
                        let target = match n.on {
                            Some(t) => t,
                            None => "None"@,
                        };
                        Some(head.push(("Attached to"@, target)) + detail_tail(d, id, "note"@, n.text, Seq::empty(), Seq::empty()))
                    },
                    None => None,
                },
            },
        },
    }
}

/// The views of a list of text pairs.
pub open spec fn pair_views(pairs: Seq<(String, String)>) -> Seq<(Seq<char>, Seq<char>)> {
    pairs.map_values(|p: (String, String)| (p.0@, p.1@))
}

fn pair(heading: &str, value: &str) -> (p: (String, String))
    ensures
        p.0@ == heading@,
        p.1@ == value@,
{
    (String::from_str(heading), String::from_str(value))
}

fn shown(value: &str) -> (s: String)
    ensures
        s@ == or_none(value@),
{
    if value.unicode_len() == 0 {
        String::from_str("None")
    } else {
        String::from_str(value)
    }
}

fn connection_text(design: &Design, id: &str) -> (text: String)
    ensures
        text@ == join(connections(design@.edges, id@), "\n"@),
{
    let mut lines: Vec<String> = Vec::new();
    let ghost edges = design@.edges;
    for i in 0..design.edges.len()
        invariant
            edges == design@.edges,
            lines.deep_view() == connections(edges.take(i as int), id@),
    {
        proof {
            assert(edges.take(i + 1).drop_last() =~= edges.take(i as int));
            assert(edges.take(i + 1).last() == edges[i as int]);
        }
        let edge = &design.edges[i];
        if str_eq(edge.id.as_str(), id) || str_eq(edge.from.as_str(), id) || str_eq(edge.to.as_str(), id) {
            let mut line = joined(edge.id.as_str(), ": ");
            line.append(edge.from.as_str());
            line.append(" ");
            line.append(if edge.bidirectional {
                "↔"
            } else {
                "→"
            });
            line.append(" ");
            line.append(edge.to.as_str());
            line.append(" (");
            line.append(edge_kind_name(edge.kind));
            line.append(")");
            if let Some(label) = &edge.label {
                line.append(" — ");
                line.append(label.as_str());
            }
            let ghost prev = lines.deep_view();
            proof {
                assert(line@ =~= connection_line(edges[i as int]));
            }
            lines.push(line);
            proof {
                assert(lines.deep_view() =~= prev.push(connection_line(edges[i as int])));
            }
        }
    }
    proof {
        assert(edges.take(edges.len() as int) =~= edges);
    }
    join_strings(&lines, "\n")
}

fn append_tail(
    fields: &mut Vec<(String, String)>,
    design: &Design,
    id: &str,
    kind: &str,
    text: &str,
    description: &str,
    tags: &str,
)
    ensures
        pair_views(final(fields)@) == pair_views(old(fields)@) + detail_tail(design@, id@, kind@, text@, description@, tags@),
{
    let ghost start = pair_views(fields@);
    fields.push((String::from_str("Kind"), shown(kind)));
    fields.push((String::from_str("Label"), shown(text)));
    fields.push((String::from_str("Description"), shown(description)));
    fields.push((String::from_str("Tags"), shown(tags)));
    let connections = connection_text(design, id);
    fields.push((String::from_str("Connections"), shown(connections.as_str())));
    proof {
        assert(pair_views(fields@) =~= start + detail_tail(design@, id@, kind@, text@, description@, tags@));
    }
}

fn text_of(value: &Option<String>) -> (s: &str)
    ensures
        s@ == text_or_empty(value.deep_view()),
{
    match value {
        Some(v) => v.as_str(),
        None => {
            proof {
                reveal_strlit("");
            }
            ""
        },
    }
}

/// Plain text fields for the detail panel; missing metadata reads "None".
pub fn detail_text(design: &Design, id: &str) -> (fields: Option<Vec<(String, String)>>)
    ensures
        match fields {
            Some(f) => spec_detail_text(design@, id@) == Some(pair_views(f@)),
            None => spec_detail_text(design@, id@) is None,
        },
{
    let mut fields: Vec<(String, String)> = Vec::new();
    fields.push(pair("Id", id));
    proof {
        assert(pair_views(fields@) =~= seq![("Id"@, id@)]);
    }
    if let Some(i) = node_position(&design.nodes, id) {
        proof {
            assert(views(design.nodes@)[i as int] == design@.nodes[i as int]);
        }
        let node = &design.nodes[i];
        let tags = join_strings(&node.tags, ", ");
        append_tail(&mut fields, design, id, node_kind_name(node.kind), node.label.as_str(), text_of(&node.description), tags.as_str());
        return Some(fields);
    }
    if let Some(i) = container_position(&design.containers, id) {
        proof {
            assert(views(design.containers@)[i as int] == design@.containers[i as int]);
            reveal_strlit("");
        }
        let container = &design.containers[i];
        append_tail(&mut fields, design, id, "container", container.label.as_str(), text_of(&container.description), "");
        return Some(fields);
    }
    if let Some(i) = edge_position(&design.edges, id) {
        proof {
            assert(views(design.edges@)[i as int] == design@.edges[i as int]);
            reveal_strlit("");
        }
        let edge = &design.edges[i];
        let ghost before = pair_views(fields@);
        fields.push(pair("Direction", if edge.bidirectional {
            "bidirectional"
        } else {
            "one way"
        }));
        proof {
            assert(pair_views(fields@) =~= before.push(("Direction"@, if edge.bidirectional {
                "bidirectional"@
            } else {
                "one way"@
            })));
        }
        append_tail(&mut fields, design, id, edge_kind_name(edge.kind), text_of(&edge.label), "", "");
        return Some(fields);
    }
    if let Some(i) = note_position(&design.notes, id) {
        proof {
            assert(views(design.notes@)[i as int] == design@.notes[i as int]);
            reveal_strlit("");
        }
        let note = &design.notes[i];
        let ghost before = pair_views(fields@);
        let target: &str = match &note.on {
            Some(t) => t.as_str(),
            None => "None",
        };
        fields.push(pair("Attached to", target));
        proof {
            assert(pair_views(fields@) =~= before.push(("Attached to"@, target@)));
        }
        append_tail(&mut fields, design, id, "note", note.text.as_str(), "", "");
        return Some(fields);
    }
    None
}

/// The edge is element `id` itself or starts or ends at it.
pub open spec fn connects(e: EdgeView, id: Seq<char>) -> bool {
    e.id == id || e.from == id || e.to == id
}

/// `line` is the connection line of some edge of `edges` that connects `id`.
pub open spec fn line_of_a_connection(edges: Seq<EdgeView>, id: Seq<char>, line: Seq<char>) -> bool {
    exists|k: int| 0 <= k < edges.len() && connects(#[trigger] edges[k], id) && line == connection_line(edges[k])
}

proof fn lemma_connections_are_the_connected_lines(edges: Seq<EdgeView>, id: Seq<char>)
    ensures
        forall|k: int| 0 <= k < edges.len() && connects(#[trigger] edges[k], id) ==> connections(edges, id).contains(connection_line(edges[k])),
        forall|m: int| 0 <= m < connections(edges, id).len() ==> line_of_a_connection(edges, id, #[trigger] connections(edges, id)[m]),
    decreases edges.len(),
{
    if edges.len() > 0 {
        let rest = edges.drop_last();
        let before = connections(rest, id);
        lemma_connections_are_the_connected_lines(rest, id);
        let now = connections(edges, id);
        assert forall|k: int| 0 <= k < edges.len() && connects(#[trigger] edges[k], id) implies now.contains(connection_line(edges[k])) by {
            if k < edges.len() - 1 {
                assert(rest[k] == edges[k]);
                let m = choose|m: int| 0 <= m < before.len() && before[m] == connection_line(rest[k]);
                assert(now[m] == before[m]);
            } else {
                assert(now[now.len() - 1] == connection_line(edges[k]));
            }
        }
        assert forall|m: int| 0 <= m < now.len() implies line_of_a_connection(edges, id, #[trigger] now[m]) by {
            if m < before.len() {
                assert(line_of_a_connection(rest, id, before[m]));
                let k = choose|k: int| 0 <= k < rest.len() && connects(#[trigger] rest[k], id) && before[m] == connection_line(rest[k]);
                assert(edges[k] == rest[k]);
                assert(now[m] == before[m]);
            } else {
                let k = edges.len() - 1;
                assert(edges[k] == edges.last());
                assert(connects(edges[k], id));
                assert(now[m] == connection_line(edges[k]));
            }
        }
    }
}

/// The detail panel of any element ends with its connections: one line for
/// each edge that is the element itself or starts or ends at it, and no
/// other line; an edge's details thus list that edge's own line.
pub proof fn law_details_list_every_connection(d: DesignView, id: Seq<char>, fields: Seq<(Seq<char>, Seq<char>)>)
    requires
        spec_detail_text(d, id) == Some(fields),
    ensures
        fields.len() > 0,
        fields.last().0 == "Connections"@,
        exists|lines: Seq<Seq<char>>| {
            &&& fields.last().1 == or_none(join(lines, "\n"@))
            &&& forall|k: int| 0 <= k < d.edges.len() && connects(#[trigger] d.edges[k], id) ==> lines.contains(connection_line(d.edges[k]))
            &&& forall|m: int| 0 <= m < lines.len() ==> line_of_a_connection(d.edges, id, #[trigger] lines[m])
        },
{
    lemma_connections_are_the_connected_lines(d.edges, id);
    let lines = connections(d.edges, id);
    assert(fields.last() == ("Connections"@, or_none(join(lines, "\n"@))));
}

} // verus!
