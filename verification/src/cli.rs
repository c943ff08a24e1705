//! What the command line decides from its arguments, and the plain-text
//! summary that `show` prints.

use vstd::prelude::*;

use crate::ancestry::ancestor;
use crate::display::{join, join_strings, node_kind_name, edge_kind_name, spec_edge_kind_name, spec_node_kind_name};
use crate::edit::{
    container_ids, edge_ids, node_ids, note_ids, sorted_by_id, OptionalUpdate,
};
use crate::model::{ContainerView, Design, DesignView, EdgeView, NodeView, NoteView};
use crate::text::{decimal, spec_decimal, str_eq};
use crate::validation::{parent_of, parent_pairs};

verus! {

/// The update an optional field's flags ask for: clearing wins, a value
/// replaces, and nothing keeps the field.
pub open spec fn spec_optional<T>(value: Option<T>, clear: bool) -> OptionalUpdate<T> {
    if clear {
        OptionalUpdate::Clear
    } else {
        match value {
            Some(v) => OptionalUpdate::Replace(v),
            None => OptionalUpdate::Keep,
        }
    }
}

/// Turn a value flag and its clear flag into an update.
pub fn optional<T>(value: Option<T>, clear: bool) -> (update: OptionalUpdate<T>)
    ensures
        update == spec_optional(value, clear),
{
    if clear {
        OptionalUpdate::Clear
    } else {
        match value {
            Some(v) => OptionalUpdate::Replace(v),
            None => OptionalUpdate::Keep,
        }
    }
}

/// Repeated tag flags replace all tags; the clear flag replaces them with
/// none; with neither, the tags stay.
pub fn tags_update(tags: Vec<String>, clear: bool) -> (update: Option<Vec<String>>)
    ensures
        update == if clear || tags.len() > 0 { Some(tags) } else { None::<Vec<String>> },
{
    if clear || tags.len() > 0 {
        Some(tags)
    } else {
        None
    }
}

/// `count` and a plural noun, as `list` reports them: `3 nodes`.
pub fn count_message(count: usize, noun: &str) -> (text: String)
    ensures
        text@ == spec_decimal(count as nat) + " "@ + noun@,
{
    let mut text = decimal(count as u64);
    text.append(" ");
    text.append(noun);
    proof {
        reveal_strlit(" ");
    }
    text
}

// ---------------------------------------------------------------------------
// The summary

/// Two spaces per level of nesting.
pub open spec fn indent(depth: nat) -> Seq<char> {
    Seq::new(2 * depth, |i: int| ' ')
}

pub open spec fn container_line(c: ContainerView, depth: nat) -> Seq<char> {
    indent(depth) + c.label + " ["@ + c.id + "]"@
}

pub open spec fn node_line(n: NodeView, depth: nat) -> Seq<char> {
    indent(depth) + n.label + " ["@ + n.id + "] ("@ + spec_node_kind_name(n.kind) + ")"@
}

/// The containers and nodes directly inside `parent` (at the top level for
/// `None`), in id order, each container followed by its own contents one
/// level deeper. `fuel` bounds the nesting; a design without parent cycles
/// never needs more than one more than it has containers.
pub open spec fn contents(d: DesignView, parent: Option<Seq<char>>, depth: nat, fuel: nat) -> Seq<Seq<char>>
    decreases fuel, 0nat,
{
    if fuel == 0 {
        Seq::empty()
    } else {
        container_lines(d, sorted_by_id(d.containers, container_ids(d.containers)), parent, depth, (fuel - 1) as nat)
            + node_lines(sorted_by_id(d.nodes, node_ids(d.nodes)), parent, depth)
    }
}

pub open spec fn container_lines(d: DesignView, cs: Seq<ContainerView>, parent: Option<Seq<char>>, depth: nat, fuel: nat) -> Seq<Seq<char>>
    decreases fuel, cs.len() + 1,
{
    if cs.len() == 0 {
        Seq::empty()
    } else {
        container_lines(d, cs.drop_last(), parent, depth, fuel) + if cs.last().parent == parent {
            seq![container_line(cs.last(), depth)] + contents(d, Some(cs.last().id), depth + 1, fuel)
        } else {
            Seq::empty()
        }
    }
}

pub open spec fn node_lines(ns: Seq<NodeView>, parent: Option<Seq<char>>, depth: nat) -> Seq<Seq<char>>
    decreases ns.len(),
{
    if ns.len() == 0 {
        Seq::empty()
    } else {
        node_lines(ns.drop_last(), parent, depth) + if ns.last().container == parent {
            seq![node_line(ns.last(), depth)]
        } else {
            Seq::empty()
        }
    }
}

pub open spec fn edge_line(e: EdgeView) -> Seq<char> {
    "  "@ + e.from + (if e.bidirectional { " <-> "@ } else { " -> "@ }) + e.to + " ("@ + spec_edge_kind_name(e.kind) + ")"@
        + match e.label {
        Some(label) => ": "@ + label,
        None => Seq::empty(),
    }
}

pub open spec fn note_line(n: NoteView) -> Seq<char> {
    "  "@ + n.id + match n.on {
        Some(id) => " (on "@ + id + ")"@,
        None => Seq::empty(),
    } + ": "@ + n.text
}

/// The lines of `show`'s summary: title, description, the nested
/// containers and nodes, then edges and notes in id order.
pub open spec fn summary_lines(d: DesignView) -> Seq<Seq<char>> {
    seq![d.title] + match d.description {
        Some(text) => seq![text],
        None => Seq::empty(),
    } + contents(d, None, 0, d.containers.len() + 2) + seq!["Edges:"@] + sorted_by_id(d.edges, edge_ids(d.edges)).map_values(
        |e: EdgeView| edge_line(e),
    ) + seq!["Notes:"@] + sorted_by_id(d.notes, note_ids(d.notes)).map_values(|n: NoteView| note_line(n))
}


/// Two spaces per level.
fn indent_text(depth: usize) -> (text: String)
    ensures
        text@ == indent(depth as nat),
{
    let mut text = String::new();
    let mut i: usize = 0;
    proof {
        reveal_strlit("  ");
        assert(text@ =~= indent(0));
    }
    while i < depth
        invariant
            i <= depth,
            text@ == indent(i as nat),
        decreases depth - i,
    {
        text.append("  ");
        proof {
            reveal_strlit("  ");
            assert(text@ =~= indent((i + 1) as nat));
        }
        i = i + 1;
    }
    text
}

/// Whether two optional ids are the same.
fn same_id(a: &Option<String>, b: &Option<String>) -> (same: bool)
    ensures
        same == (a.deep_view() == b.deep_view()),
{
    match (a, b) {
        (Some(x), Some(y)) => str_eq(x.as_str(), y.as_str()),
        (None, None) => true,
        _ => false,
    }
}

/// Append the containers and nodes inside `parent`, nested ones indented.
fn append_contents(
    design: &Design,
    parent: &Option<String>,
    depth: usize,
    lines: &mut Vec<String>,
    Ghost(fuel): Ghost<nat>,
)
    requires
        crate::layers::well_formed(design@),
        fuel >= 1,
        fuel + depth == design@.containers.len() + 2,
        parent.deep_view() matches Some(p) ==> depth >= 1 && ancestor(parent_pairs(design@.containers), p, (depth - 1) as nat) is Some,
        parent is None ==> depth == 0,
    ensures
        final(lines).deep_view() == old(lines).deep_view() + contents(design@, parent.deep_view(), depth as nat, fuel),
    decreases fuel,
{
    let ghost d = design@;
    let ghost pp = parent_pairs(d.containers);
    let ghost start = lines.deep_view();
    let ghost par = parent.deep_view();
    let pad = indent_text(depth);
    let containers = design.list_containers();
    let ghost cs = containers@.map_values(|r: &crate::model::Container| r@);
    let ghost order = crate::order::spec_id_order(container_ids(d.containers));
    proof {
        crate::layers::lemma_vertex_lookups(d);
        assert(cs.take(0) =~= Seq::<ContainerView>::empty());
        assert(lines.deep_view() =~= start + container_lines(d, cs.take(0), par, depth as nat, (fuel - 1) as nat));
    }
    for k in 0..containers.len()
        invariant
            d == design@,
            pp == parent_pairs(d.containers),
            par == parent.deep_view(),
            crate::layers::well_formed(d),
            fuel >= 1,
            fuel + depth == d.containers.len() + 2,
            par matches Some(p) ==> depth >= 1 && ancestor(pp, p, (depth - 1) as nat) is Some,
            parent is None ==> depth == 0,
            pad@ == indent(depth as nat),
            cs == containers@.map_values(|r: &crate::model::Container| r@),
            cs == sorted_by_id(d.containers, container_ids(d.containers)),
            order == crate::order::spec_id_order(container_ids(d.containers)),
            crate::order::is_id_order(container_ids(d.containers), order),
            forall|j: int| 0 <= j < d.containers.len() ==> lookup_parent(pp, (#[trigger] d.containers[j]).id) == Some(d.containers[j].parent),
            lines.deep_view() == start + container_lines(d, cs.take(k as int), par, depth as nat, (fuel - 1) as nat),
    {
        let c = containers[k];
        proof {
            assert(cs.take(k + 1).drop_last() =~= cs.take(k as int));
            assert(cs.take(k + 1).last() == c@);
        }
        if same_id(&c.parent, parent) {
            let ghost before = lines.deep_view();
            let mut line = String::from_str(pad.as_str());
            line.append(c.label.as_str());
            line.append(" [");
            line.append(c.id.as_str());
            line.append("]");
            lines.push(line);
            proof {
                reveal_strlit(" [");
                reveal_strlit("]");
                assert(lines.deep_view() =~= before.push(container_line(c@, depth as nat)));
                // `c` sits one level below `parent`, so more nesting is still in bounds.
                let j = order[k as int] as int;
                assert(cs[k as int] == c@);
                let srt = sorted_by_id(d.containers, container_ids(d.containers));
                assert(srt == order.map_values(|i: usize| d.containers[i as int]));
                assert(order.len() == d.containers.len());
                assert(k < cs.len());
                assert(srt.len() == order.len());
                assert(srt[k as int] == d.containers[order[k as int] as int]);
                assert(srt[k as int] == d.containers[j]);
                assert(c@ == d.containers[j]);
                assert(lookup_parent(pp, c@.id) == Some(c@.parent));
                assert(parent_of(pp, c@.id) == par);
                assert(ancestor(pp, c@.id, 0) == Some(c@.id));
                if let Some(p) = par {
                    assert(ancestor(pp, c@.id, 1) == Some(p));
                    crate::ancestry::lemma_ancestor_add(pp, c@.id, 1, (depth - 1) as nat);
                    assert((1 + (depth - 1) as nat) as nat == depth as nat);
                    crate::ancestry::lemma_acyclic_chain_ends(pp, c@.id);
                    if depth >= d.containers.len() + 1 {
                        crate::ancestry::lemma_ancestor_some_below(pp, c@.id, d.containers.len() + 1, depth as nat);
                    }
                    crate::id_map::lemma_has_key_at(pp, j);
                    lemma_depth_bound(d, c@.id, depth as nat);
                }
            }
            let child: Option<String> = Some(c.id.clone());
            let ghost mid = lines.deep_view();
            append_contents(design, &child, depth + 1, lines, Ghost((fuel - 1) as nat));
            proof {
                assert(lines.deep_view() =~= before + (seq![container_line(c@, depth as nat)] + contents(d, Some(c@.id), (depth + 1) as nat, (fuel - 1) as nat)));
                assert(lines.deep_view() =~= start + container_lines(d, cs.take(k + 1), par, depth as nat, (fuel - 1) as nat));
            }
        } else {
            proof {
                assert(lines.deep_view() =~= start + container_lines(d, cs.take(k + 1), par, depth as nat, (fuel - 1) as nat));
            }
        }
    }
    proof {
        assert(cs.take(containers.len() as int) =~= cs);
    }
    let ghost after_containers = lines.deep_view();
    let nodes = design.list_nodes();
    let ghost ns = nodes@.map_values(|r: &crate::model::Node| r@);
    proof {
        assert(ns.take(0) =~= Seq::<NodeView>::empty());
        assert(lines.deep_view() =~= after_containers + node_lines(ns.take(0), par, depth as nat));
    }
    for k in 0..nodes.len()
        invariant
            par == parent.deep_view(),
            pad@ == indent(depth as nat),
            ns == nodes@.map_values(|r: &crate::model::Node| r@),
            lines.deep_view() == after_containers + node_lines(ns.take(k as int), par, depth as nat),
    {
        let n = nodes[k];
        proof {
            assert(ns.take(k + 1).drop_last() =~= ns.take(k as int));
            assert(ns.take(k + 1).last() == n@);
        }
        if same_id(&n.container, parent) {
            let ghost before = lines.deep_view();
            let mut line = String::from_str(pad.as_str());
            line.append(n.label.as_str());
            line.append(" [");
            line.append(n.id.as_str());
            line.append("] (");
            line.append(node_kind_name(n.kind));
            line.append(")");
            lines.push(line);
            proof {
                reveal_strlit(" [");
                reveal_strlit("] (");
                reveal_strlit(")");
                assert(lines.deep_view() =~= before.push(node_line(n@, depth as nat)));
                assert(lines.deep_view() =~= after_containers + node_lines(ns.take(k + 1), par, depth as nat));
            }
        } else {
            proof {
                assert(lines.deep_view() =~= after_containers + node_lines(ns.take(k + 1), par, depth as nat));
            }
        }
    }
    proof {
        assert(ns.take(nodes.len() as int) =~= ns);
    }
}

/// The parent link recorded for a container id.
pub open spec fn lookup_parent(pp: Seq<(Seq<char>, Option<Seq<char>>)>, id: Seq<char>) -> Option<Option<Seq<char>>> {
    crate::id_map::lookup(pp, id)
}

/// The plain-text summary `show` prints for a valid design: title,
/// description, nested containers and nodes, then edges and notes.
pub fn design_summary(design: &Design) -> (text: String)
    requires
        crate::validation::spec_is_valid(design@),
    ensures
        text@ == join(summary_lines(design@), "\n"@),
{
    let ghost d = design@;
    proof {
        crate::layers::lemma_valid_well_formed(d);
    }
    let mut lines: Vec<String> = Vec::new();
    lines.push(design.title.clone());
    if let Some(description) = &design.description {
        lines.push(description.clone());
    }
    let ghost head = lines.deep_view();
    proof {
        assert(head =~= seq![d.title] + match d.description {
            Some(text) => seq![text],
            None => Seq::<Seq<char>>::empty(),
        });
    }
    let top: Option<String> = None;
    append_contents(design, &top, 0, &mut lines, Ghost(d.containers.len() + 2));
    let ghost with_contents = lines.deep_view();
    proof {
        assert(with_contents == head + contents(d, None, 0, d.containers.len() + 2));
    }
    lines.push(String::from_str("Edges:"));
    let ghost with_heading = lines.deep_view();
    append_edge_lines(design, &mut lines);
    let ghost with_edges = lines.deep_view();
    lines.push(String::from_str("Notes:"));
    let ghost with_notes_heading = lines.deep_view();
    append_note_lines(design, &mut lines);
    proof {
        reveal_strlit("Edges:");
        reveal_strlit("Notes:");
        assert(with_heading =~= with_contents.push("Edges:"@));
        assert(with_notes_heading =~= with_edges.push("Notes:"@));
        assert(lines.deep_view() =~= summary_lines(d));
    }
    join_strings(&lines, "\n")
}

/// Append a line for each edge, in id order.
fn append_edge_lines(design: &Design, lines: &mut Vec<String>)
    ensures
        final(lines).deep_view() == old(lines).deep_view() + sorted_by_id(design@.edges, edge_ids(design@.edges)).map_values(
            |e: EdgeView| edge_line(e),
        ),
{
    let edges = design.list_edges();
    let ghost es = edges@.map_values(|r: &crate::model::Edge| r@);
    let ghost start = lines.deep_view();
    proof {
        assert(lines.deep_view() =~= start + es.take(0).map_values(|e: EdgeView| edge_line(e)));
    }
    for k in 0..edges.len()
        invariant
            es == edges@.map_values(|r: &crate::model::Edge| r@),
            lines.deep_view() == start + es.take(k as int).map_values(|e: EdgeView| edge_line(e)),
    {
        let e = edges[k];
        let ghost before = lines.deep_view();
        let mut line = String::from_str("  ");
        line.append(e.from.as_str());
        if e.bidirectional {
            line.append(" <-> ");
        } else {
            line.append(" -> ");
        }
        line.append(e.to.as_str());
        line.append(" (");
        line.append(edge_kind_name(e.kind));
        line.append(")");
        if let Some(label) = &e.label {
            line.append(": ");
            line.append(label.as_str());
        }
        proof {
            reveal_strlit("  ");
            reveal_strlit(" <-> ");
            reveal_strlit(" -> ");
            reveal_strlit(" (");
            reveal_strlit(")");
            reveal_strlit(": ");
            assert(line@ == edge_line(e@));
        }
        lines.push(line);
        proof {
            reveal_strlit("  ");
            reveal_strlit(" <-> ");
            reveal_strlit(" -> ");
            reveal_strlit(" (");
            reveal_strlit(")");
            reveal_strlit(": ");
            assert(es[k as int] == e@);
            assert(lines.deep_view() =~= before.push(edge_line(e@)));
            assert(es.take(k + 1) =~= es.take(k as int).push(e@));
            assert(lines.deep_view() =~= start + es.take(k + 1).map_values(|e: EdgeView| edge_line(e)));
        }
    }
    proof {
        assert(es.take(edges.len() as int) =~= es);
    }
}

/// Append a line for each note, in id order.
fn append_note_lines(design: &Design, lines: &mut Vec<String>)
    ensures
        final(lines).deep_view() == old(lines).deep_view() + sorted_by_id(design@.notes, note_ids(design@.notes)).map_values(
            |n: NoteView| note_line(n),
        ),
{
    let notes = design.list_notes();
    let ghost nts = notes@.map_values(|r: &crate::model::Note| r@);
    let ghost start = lines.deep_view();
    proof {
        assert(lines.deep_view() =~= start + nts.take(0).map_values(|n: NoteView| note_line(n)));
    }
    for k in 0..notes.len()
        invariant
            nts == notes@.map_values(|r: &crate::model::Note| r@),
            lines.deep_view() == start + nts.take(k as int).map_values(|n: NoteView| note_line(n)),
    {
        let n = notes[k];
        let ghost before = lines.deep_view();
        let mut line = String::from_str("  ");
        line.append(n.id.as_str());
        if let Some(on) = &n.on {
            line.append(" (on ");
            line.append(on.as_str());
            line.append(")");
        }
        line.append(": ");
        line.append(n.text.as_str());
        proof {
            reveal_strlit("  ");
            reveal_strlit(" (on ");
            reveal_strlit(")");
            reveal_strlit(": ");
            assert(line@ == note_line(n@));
        }
        lines.push(line);
        proof {
            reveal_strlit("  ");
            reveal_strlit(" (on ");
            reveal_strlit(")");
            reveal_strlit(": ");
            assert(nts[k as int] == n@);
            assert(lines.deep_view() =~= before.push(note_line(n@)));
            assert(nts.take(k + 1) =~= nts.take(k as int).push(n@));
            assert(lines.deep_view() =~= start + nts.take(k + 1).map_values(|n: NoteView| note_line(n)));
        }
    }
    proof {
        assert(nts.take(notes.len() as int) =~= nts);
    }
}

/// A container with `depth` ancestors above it sits among more than
/// `depth` distinct containers.
proof fn lemma_depth_bound(d: DesignView, c: Seq<char>, depth: nat)
    requires
        crate::layers::well_formed(d),
        crate::id_map::has_key(parent_pairs(d.containers), c),
        ancestor(parent_pairs(d.containers), c, depth) is Some,
    ensures
        depth < d.containers.len(),
{
    let pp = parent_pairs(d.containers);
    let e = crate::validation::element_entries(d);
    let chain = Seq::new(depth + 1, |i: int| ancestor(pp, c, i as nat).unwrap());
    assert forall|i: int| 0 <= i < chain.len() implies crate::id_map::has_key(pp, #[trigger] chain[i]) by {
        crate::ancestry::lemma_ancestor_some_below(pp, c, i as nat, depth);
        if i > 0 {
            crate::ancestry::lemma_ancestor_some_below(pp, c, (i - 1) as nat, depth);
            let below = ancestor(pp, c, (i - 1) as nat).unwrap();
            assert(ancestor(pp, c, i as nat) == parent_of(pp, below));
            crate::id_map::lemma_lookup_has_key(pp, below);
            let j = choose|j: int| 0 <= j < pp.len() && #[trigger] pp[j] == (below, Some(chain[i]));
            assert(d.containers[j].parent == Some(chain[i]));
            assert(crate::layers::placeable(e, chain[i]));
            crate::layers::lemma_placeable_vertex(d, chain[i]);
            let m = choose|m: int| 0 <= m < d.containers.len() && (#[trigger] d.containers[m]).id == chain[i];
            crate::id_map::lemma_has_key_at(pp, m);
            assert(pp[m].0 == chain[i]);
        }
    }
    assert(chain.no_duplicates()) by {
        assert forall|a: int, b: int| 0 <= a < chain.len() && 0 <= b < chain.len() && a != b implies chain[a] != chain[b] by {
            let (lo, hi) = if a < b { (a, b) } else { (b, a) };
            crate::ancestry::lemma_ancestor_some_below(pp, c, lo as nat, depth);
            crate::ancestry::lemma_ancestor_some_below(pp, c, hi as nat, depth);
            crate::ancestry::lemma_ancestor_add(pp, c, lo as nat, (hi - lo) as nat);
            assert((lo + (hi - lo)) as nat == hi as nat);
            if chain[lo] == chain[hi] {
                assert(ancestor(pp, chain[lo], (hi - lo) as nat) == Some(chain[lo]));
            }
        }
    }
    crate::validation::lemma_distinct_keys_bound(chain, pp);
}
} // verus!
