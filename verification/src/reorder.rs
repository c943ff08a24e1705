//! The order in which a design lists its elements carries no meaning: the
//! saved document and the layered graph of the automatic layout depend only
//! on which elements there are.

use vstd::prelude::*;

use crate::edit::{container_ids, edge_ids, node_ids, note_ids, sorted_by_id};
use crate::id_map::{has_key, key_set, lemma_lookup_has_key, lookup};
use crate::layers::{
    broken, chain, design_arcs, distinct_keys, is_leaf, leaf_ids, path_of, ranked, vertex_ids, vertex_pairs,
    vertices,
};
use crate::model::{ContainerView, Design, DesignView, EdgeView, NodeView, NoteView};
use crate::order::{id_before, lemma_id_order_exists, spec_id_order};
use crate::text::lex_lt;
use crate::validation::{
    cycle_reports, edge_problems, element_entries, id_problems, membership_problems, note_problems, parent_of,
    parent_pairs, parent_problems, spec_is_valid, spec_valid_id, strictly_increasing, walk, ElementKind,
};

verus! {

/// `b` lists the same elements as `a`, each kind possibly in another order,
/// and has the same title, description, and layout.
pub open spec fn reordered(a: DesignView, b: DesignView) -> bool {
    &&& a.title == b.title
    &&& a.description == b.description
    &&& a.containers.to_multiset() == b.containers.to_multiset()
    &&& a.nodes.to_multiset() == b.nodes.to_multiset()
    &&& a.edges.to_multiset() == b.edges.to_multiset()
    &&& a.notes.to_multiset() == b.notes.to_multiset()
    &&& a.layout == b.layout
}

/// No two records of `s` share a key.
pub open spec fn unique_keys<V>(s: Seq<V>, key: spec_fn(V) -> Seq<char>) -> bool {
    forall|i: int, j: int| 0 <= i < s.len() && 0 <= j < s.len() && i != j ==> key(#[trigger] s[i]) != key(#[trigger] s[j])
}

/// Records with unique keys, listed in two orders, sort by key to the same sequence.
pub(crate) proof fn lemma_sorted_reordered<V>(a: Seq<V>, b: Seq<V>, key: spec_fn(V) -> Seq<char>)
    requires
        a.len() <= usize::MAX,
        b.len() <= usize::MAX,
        forall|x: V| a.contains(x) <==> b.contains(x),
        unique_keys(a, key),
        unique_keys(b, key),
    ensures
        sorted_by_id(a, a.map_values(key)) == sorted_by_id(b, b.map_values(key)),
{
    let ra = sorted_by_id(a, a.map_values(key));
    let rb = sorted_by_id(b, b.map_values(key));
    lemma_sorted_listing(a, key);
    lemma_sorted_listing(b, key);
    let ka = ra.map_values(key);
    let kb = rb.map_values(key);
    assert forall|y: Seq<char>| ka.to_set().contains(y) <==> kb.to_set().contains(y) by {
        if ka.to_set().contains(y) {
            let p = choose|p: int| 0 <= p < ka.len() && ka[p] == y;
            assert(ra.contains(ra[p]));
            assert(a.contains(ra[p]));
            assert(b.contains(ra[p]));
            assert(rb.contains(ra[p]));
            let q = choose|q: int| 0 <= q < rb.len() && rb[q] == ra[p];
            assert(kb[q] == y);
        }
        if kb.to_set().contains(y) {
            let p = choose|p: int| 0 <= p < kb.len() && kb[p] == y;
            assert(rb.contains(rb[p]));
            assert(b.contains(rb[p]));
            assert(a.contains(rb[p]));
            assert(ra.contains(rb[p]));
            let q = choose|q: int| 0 <= q < ra.len() && ra[q] == rb[p];
            assert(ka[q] == y);
        }
    }
    assert(ka.to_set() =~= kb.to_set());
    crate::validation::lemma_increasing_unique(ka, kb);
    assert forall|k: int| 0 <= k < ra.len() implies ra[k] == rb[k] by {
        assert(ka[k] == kb[k]);
        assert(ra.contains(ra[k]));
        assert(rb.contains(rb[k]));
        assert(a.contains(ra[k]));
        assert(b.contains(rb[k]));
        assert(a.contains(rb[k]));
        let i = choose|i: int| 0 <= i < a.len() && a[i] == ra[k];
        let j = choose|j: int| 0 <= j < a.len() && a[j] == rb[k];
        assert(key(a[i]) == key(a[j]));
    }
    assert(ra =~= rb);
}

/// Sorting records with unique keys lists each of them once, keys increasing.
pub(crate) proof fn lemma_sorted_listing<V>(a: Seq<V>, key: spec_fn(V) -> Seq<char>)
    requires
        a.len() <= usize::MAX,
        unique_keys(a, key),
    ensures
        sorted_by_id(a, a.map_values(key)).len() == a.len(),
        strictly_increasing(sorted_by_id(a, a.map_values(key)).map_values(key)),
        forall|x: V| a.contains(x) <==> #[trigger] sorted_by_id(a, a.map_values(key)).contains(x),
{
    let ids = a.map_values(key);
    let order = spec_id_order(ids);
    lemma_id_order_exists(ids);
    let r = sorted_by_id(a, ids);
    assert forall|p: int, q: int| 0 <= p < q < r.len() implies lex_lt(#[trigger] r.map_values(key)[p], #[trigger] r.map_values(key)[q]) by {
        assert(id_before(ids, order[p] as int, order[q] as int));
        assert(r[p] == a[order[p] as int]);
        assert(r[q] == a[order[q] as int]);
        if !lex_lt(ids[order[p] as int], ids[order[q] as int]) {
            assert(key(a[order[p] as int]) == key(a[order[q] as int]));
        }
    }
    assert forall|x: V| a.contains(x) <==> #[trigger] r.contains(x) by {
        if a.contains(x) {
            let i = choose|i: int| 0 <= i < a.len() && a[i] == x;
            assert(order.contains(i as usize));
            let p = choose|p: int| 0 <= p < order.len() && order[p] == i as usize;
            assert(r[p] == x);
        }
        if r.contains(x) {
            let p = choose|p: int| 0 <= p < r.len() && r[p] == x;
            assert(a[order[p] as int] == x);
        }
    }
}

/// Two listings of the same entries, each key once, look every key up alike.
proof fn lemma_lookup_reordered<V>(s: Seq<(Seq<char>, V)>, t: Seq<(Seq<char>, V)>, k: Seq<char>)
    requires
        distinct_keys(s),
        distinct_keys(t),
        forall|e: (Seq<char>, V)| s.contains(e) <==> t.contains(e),
    ensures
        lookup(s, k) == lookup(t, k),
{
    lemma_lookup_has_key(s, k);
    lemma_lookup_has_key(t, k);
    lemma_lookup_of_distinct(s, k);
    lemma_lookup_of_distinct(t, k);
    if has_key(s, k) {
        let i = choose|i: int| 0 <= i < s.len() && #[trigger] s[i].0 == k;
        assert(s.contains(s[i]));
        assert(t.contains(s[i]));
        let j = choose|j: int| 0 <= j < t.len() && t[j] == s[i];
        assert(t[j].0 == k);
    }
    if has_key(t, k) {
        let j = choose|j: int| 0 <= j < t.len() && #[trigger] t[j].0 == k;
        assert(t.contains(t[j]));
        assert(s.contains(t[j]));
        let i = choose|i: int| 0 <= i < s.len() && s[i] == t[j];
        assert(s[i].0 == k);
    }
}

/// With each key once, a key's lookup is the value of its one entry.
proof fn lemma_lookup_of_distinct<V>(s: Seq<(Seq<char>, V)>, k: Seq<char>)
    requires
        distinct_keys(s),
    ensures
        forall|i: int| 0 <= i < s.len() && #[trigger] s[i].0 == k ==> lookup(s, k) == Some(s[i].1),
{
    assert forall|i: int| 0 <= i < s.len() && #[trigger] s[i].0 == k implies lookup(s, k) == Some(s[i].1) by {
        lemma_lookup_has_key(s, k);
        assert(has_key(s, k));
        let v = lookup(s, k).unwrap();
        let j = choose|j: int| 0 <= j < s.len() && #[trigger] s[j] == (k, v);
        assert(s[j].0 == s[i].0);
    }
}

/// Climbing the same parent links gives the same chain.
proof fn lemma_chain_congruent(
    p: Seq<(Seq<char>, Option<Seq<char>>)>,
    q: Seq<(Seq<char>, Option<Seq<char>>)>,
    start: Option<Seq<char>>,
    fuel: nat,
)
    requires
        forall|x: Seq<char>| #[trigger] parent_of(p, x) == parent_of(q, x),
    ensures
        chain(p, start, fuel) == chain(q, start, fuel),
    decreases fuel,
{
    if let Some(x) = start {
        if fuel > 0 {
            assert(parent_of(p, x) == parent_of(q, x));
            lemma_chain_congruent(p, q, parent_of(p, x), (fuel - 1) as nat);
        }
    }
}

/// Where each element's entry sits among a design's element entries.
proof fn lemma_entry_positions(d: DesignView)
    ensures
        forall|i: int| 0 <= i < d.containers.len() ==> #[trigger] element_entries(d)[i] == (d.containers[i].id, ElementKind::Container),
        forall|i: int| 0 <= i < d.nodes.len() ==> #[trigger] element_entries(d)[d.containers.len() + i] == (d.nodes[i].id, ElementKind::Node),
        forall|i: int| 0 <= i < d.edges.len() ==> #[trigger] element_entries(d)[d.containers.len() + d.nodes.len() + i] == (d.edges[i].id, ElementKind::Edge),
        forall|i: int| 0 <= i < d.notes.len() ==> #[trigger] element_entries(d)[d.containers.len() + d.nodes.len() + d.edges.len() + i] == (d.notes[i].id, ElementKind::Note),
        element_entries(d).len() == d.containers.len() + d.nodes.len() + d.edges.len() + d.notes.len(),
{
    let cs = d.containers.map_values(|c: ContainerView| (c.id, ElementKind::Container));
    let ns = d.nodes.map_values(|n: NodeView| (n.id, ElementKind::Node));
    let es = d.edges.map_values(|e: EdgeView| (e.id, ElementKind::Edge));
    let ts = d.notes.map_values(|n: NoteView| (n.id, ElementKind::Note));
    assert(element_entries(d) == cs + ns + es + ts);
    let e = cs + ns + es + ts;
    assert forall|i: int| 0 <= i < d.containers.len() implies #[trigger] e[i] == (d.containers[i].id, ElementKind::Container) by {
        assert(e[i] == cs[i]);
    }
    assert forall|i: int| 0 <= i < d.nodes.len() implies #[trigger] e[d.containers.len() + i] == (d.nodes[i].id, ElementKind::Node) by {
        assert(e[d.containers.len() + i] == ns[i]);
    }
    assert forall|i: int| 0 <= i < d.edges.len() implies #[trigger] e[d.containers.len() + d.nodes.len() + i] == (d.edges[i].id, ElementKind::Edge) by {
        assert(e[d.containers.len() + d.nodes.len() + i] == es[i]);
    }
    assert forall|i: int| 0 <= i < d.notes.len() implies #[trigger] e[d.containers.len() + d.nodes.len() + d.edges.len() + i] == (d.notes[i].id, ElementKind::Note) by {
        assert(e[d.containers.len() + d.nodes.len() + d.edges.len() + i] == ts[i]);
    }
}

/// Within each kind, a valid design's ids are distinct, and so are the ids
/// of its nodes and containers together.
#[verifier::spinoff_prover]
#[verifier::rlimit(30)]
pub(crate) proof fn lemma_valid_ids_distinct(d: DesignView)
    requires
        spec_is_valid(d),
    ensures
        unique_keys(d.containers, |c: ContainerView| c.id),
        unique_keys(d.nodes, |n: NodeView| n.id),
        unique_keys(d.edges, |e: EdgeView| e.id),
        unique_keys(d.notes, |n: NoteView| n.id),
        distinct_keys(vertex_pairs(d)),
{
    crate::layers::law_valid_ids_are_unique(d);
    lemma_entry_positions(d);
    let e = element_entries(d);
    let c = d.containers.len() as int;
    let n = d.nodes.len() as int;
    let g = d.edges.len() as int;
    assert forall|i: int, j: int| 0 <= i < c && 0 <= j < c && i != j implies
        (|x: ContainerView| x.id)(#[trigger] d.containers[i]) != (|x: ContainerView| x.id)(#[trigger] d.containers[j]) by {
        assert(e[i].0 != e[j].0);
    }
    assert forall|i: int, j: int| 0 <= i < n && 0 <= j < n && i != j implies
        (|x: NodeView| x.id)(#[trigger] d.nodes[i]) != (|x: NodeView| x.id)(#[trigger] d.nodes[j]) by {
        assert(e[c + i].0 != e[c + j].0);
    }
    assert forall|i: int, j: int| 0 <= i < g && 0 <= j < g && i != j implies
        (|x: EdgeView| x.id)(#[trigger] d.edges[i]) != (|x: EdgeView| x.id)(#[trigger] d.edges[j]) by {
        assert(e[c + n + i].0 != e[c + n + j].0);
    }
    assert forall|i: int, j: int| 0 <= i < d.notes.len() && 0 <= j < d.notes.len() && i != j implies
        (|x: NoteView| x.id)(#[trigger] d.notes[i]) != (|x: NoteView| x.id)(#[trigger] d.notes[j]) by {
        assert(e[c + n + g + i].0 != e[c + n + g + j].0);
    }
    lemma_vertex_pairs_distinct(d);
}

/// The ids of a design's nodes and containers are distinct when all its ids are.
proof fn lemma_vertex_pairs_distinct(d: DesignView)
    requires
        distinct_keys(element_entries(d)),
    ensures
        distinct_keys(vertex_pairs(d)),
{
    lemma_entry_positions(d);
    let e = element_entries(d);
    let c = d.containers.len() as int;
    let n = d.nodes.len() as int;
    let ns = d.nodes.map_values(|x: NodeView| (x.id, x.container));
    let ps = parent_pairs(d.containers);
    let v = vertex_pairs(d);
    assert(v == ns + ps);
    assert forall|i: int| 0 <= i < n implies #[trigger] v[i].0 == e[c + i].0 by {
        assert(v[i] == ns[i]);
    }
    assert forall|i: int| 0 <= i < c implies #[trigger] v[n + i].0 == e[i].0 by {
        assert(v[n + i] == ps[i]);
    }
    assert forall|i: int, j: int| 0 <= i < v.len() && 0 <= j < v.len() && i != j implies (#[trigger] v[i]).0 != (#[trigger] v[j]).0 by {
        let ei = if i < n { c + i } else { i - n };
        let ej = if j < n { c + j } else { j - n };
        if i < n {
            assert(v[i].0 == e[c + i].0);
        } else {
            assert(v[n + (i - n)].0 == e[i - n].0);
        }
        if j < n {
            assert(v[j].0 == e[c + j].0);
        } else {
            assert(v[n + (j - n)].0 == e[j - n].0);
        }
        assert(e[ei].0 != e[ej].0);
    }
}

/// Records listed in two orders with the same multiset contain the same records.
proof fn lemma_same_contents<V>(a: Seq<V>, b: Seq<V>)
    requires
        a.to_multiset() == b.to_multiset(),
    ensures
        forall|x: V| a.contains(x) <==> b.contains(x),
        a.len() == b.len(),
{
    broadcast use vstd::seq_lib::group_to_multiset_ensures;
    assert(a.len() == a.to_multiset().len());
    assert(b.len() == b.to_multiset().len());
    assert forall|x: V| a.contains(x) <==> b.contains(x) by {
        assert(a.contains(x) <==> a.to_multiset().count(x) > 0);
        assert(b.contains(x) <==> b.to_multiset().count(x) > 0);
    }
}

/// Sorting a kind of record by id does not see the order it was listed in.
proof fn lemma_kind_sorted<V>(a: Seq<V>, b: Seq<V>, key: spec_fn(V) -> Seq<char>)
    requires
        a.len() <= usize::MAX,
        a.to_multiset() == b.to_multiset(),
        unique_keys(a, key),
        unique_keys(b, key),
    ensures
        sorted_by_id(a, a.map_values(key)) == sorted_by_id(b, b.map_values(key)),
{
    lemma_same_contents(a, b);
    lemma_sorted_reordered(a, b, key);
}

/// The order in which a valid design lists its elements matters neither to
/// the document that is saved, whose sections list the elements sorted by
/// id, nor to the layered graph of the automatic layout: its vertices, its
/// arcs, the arcs left once cycles are broken, and the layers.
pub proof fn law_element_order_is_irrelevant(a: Design, b: Design)
    requires
        spec_is_valid(a@),
        reordered(a@, b@),
    ensures
        sorted_by_id(a@.containers, container_ids(a@.containers)) == sorted_by_id(b@.containers, container_ids(b@.containers)),
        sorted_by_id(a@.nodes, node_ids(a@.nodes)) == sorted_by_id(b@.nodes, node_ids(b@.nodes)),
        sorted_by_id(a@.edges, edge_ids(a@.edges)) == sorted_by_id(b@.edges, edge_ids(b@.edges)),
        sorted_by_id(a@.notes, note_ids(a@.notes)) == sorted_by_id(b@.notes, note_ids(b@.notes)),
        vertices(a@) == vertices(b@),
        design_arcs(a@) == design_arcs(b@),
        broken(design_arcs(a@)) == broken(design_arcs(b@)),
        ranked(vertex_ids(vertices(a@)), broken(design_arcs(a@))) == ranked(vertex_ids(vertices(b@)), broken(design_arcs(b@))),
{
    broadcast use vstd::std_specs::vec::axiom_spec_len;
    assert(a.containers.len() == a@.containers.len());
    assert(a.nodes.len() == a@.nodes.len());
    assert(a.edges.len() == a@.edges.len());
    assert(a.notes.len() == a@.notes.len());
    law_validity_ignores_element_order(a@, b@);
    lemma_valid_ids_distinct(a@);
    lemma_valid_ids_distinct(b@);
    lemma_reordered_sections(a@, b@);
}

/// Two listings of the same elements, ids unique within each kind, have the
/// same sorted sections and the same layered graph.
proof fn lemma_reordered_sections(x: DesignView, y: DesignView)
    requires
        reordered(x, y),
        x.containers.len() <= usize::MAX,
        x.nodes.len() <= usize::MAX,
        x.edges.len() <= usize::MAX,
        x.notes.len() <= usize::MAX,
        unique_keys(x.containers, |c: ContainerView| c.id),
        unique_keys(x.nodes, |n: NodeView| n.id),
        unique_keys(x.edges, |e: EdgeView| e.id),
        unique_keys(x.notes, |n: NoteView| n.id),
        unique_keys(y.containers, |c: ContainerView| c.id),
        unique_keys(y.nodes, |n: NodeView| n.id),
        unique_keys(y.edges, |e: EdgeView| e.id),
        unique_keys(y.notes, |n: NoteView| n.id),
        distinct_keys(vertex_pairs(x)),
        distinct_keys(vertex_pairs(y)),
    ensures
        sorted_by_id(x.containers, container_ids(x.containers)) == sorted_by_id(y.containers, container_ids(y.containers)),
        sorted_by_id(x.nodes, node_ids(x.nodes)) == sorted_by_id(y.nodes, node_ids(y.nodes)),
        sorted_by_id(x.edges, edge_ids(x.edges)) == sorted_by_id(y.edges, edge_ids(y.edges)),
        sorted_by_id(x.notes, note_ids(x.notes)) == sorted_by_id(y.notes, note_ids(y.notes)),
        vertices(x) == vertices(y),
        design_arcs(x) == design_arcs(y),
{
    lemma_same_contents(x.containers, y.containers);
    lemma_same_contents(x.nodes, y.nodes);
    lemma_kind_sorted(x.containers, y.containers, |c: ContainerView| c.id);
    lemma_kind_sorted(x.nodes, y.nodes, |n: NodeView| n.id);
    lemma_kind_sorted(x.edges, y.edges, |e: EdgeView| e.id);
    lemma_kind_sorted(x.notes, y.notes, |n: NoteView| n.id);
    assert(container_ids(x.containers) =~= x.containers.map_values(|c: ContainerView| c.id));
    assert(container_ids(y.containers) =~= y.containers.map_values(|c: ContainerView| c.id));
    assert(node_ids(x.nodes) =~= x.nodes.map_values(|n: NodeView| n.id));
    assert(node_ids(y.nodes) =~= y.nodes.map_values(|n: NodeView| n.id));
    assert(edge_ids(x.edges) =~= x.edges.map_values(|e: EdgeView| e.id));
    assert(edge_ids(y.edges) =~= y.edges.map_values(|e: EdgeView| e.id));
    assert(note_ids(x.notes) =~= x.notes.map_values(|n: NoteView| n.id));
    assert(note_ids(y.notes) =~= y.notes.map_values(|n: NoteView| n.id));
    lemma_vertices_reordered(x, y);
}

/// Designs that list the same nodes and containers in other orders have
/// the same vertices.
proof fn lemma_vertices_reordered(x: DesignView, y: DesignView)
    requires
        distinct_keys(vertex_pairs(x)),
        distinct_keys(vertex_pairs(y)),
        forall|v: ContainerView| x.containers.contains(v) <==> y.containers.contains(v),
        forall|v: NodeView| x.nodes.contains(v) <==> y.nodes.contains(v),
        x.containers.len() == y.containers.len(),
        unique_keys(x.containers, |c: ContainerView| c.id),
        unique_keys(y.containers, |c: ContainerView| c.id),
    ensures
        vertices(x) == vertices(y),
{
    let vx = vertex_pairs(x);
    let vy = vertex_pairs(y);
    let px = parent_pairs(x.containers);
    let py = parent_pairs(y.containers);
    let nx = x.nodes.len() as int;
    let ny = y.nodes.len() as int;
    assert forall|e: (Seq<char>, Option<Seq<char>>)| vx.contains(e) implies vy.contains(e) by {
        let i = choose|i: int| 0 <= i < vx.len() && vx[i] == e;
        if i < nx {
            assert(y.nodes.contains(x.nodes[i]));
            let j = choose|j: int| 0 <= j < y.nodes.len() && y.nodes[j] == x.nodes[i];
            assert(vy[j] == e);
        } else {
            assert(y.containers.contains(x.containers[i - nx]));
            let j = choose|j: int| 0 <= j < y.containers.len() && y.containers[j] == x.containers[i - nx];
            assert(vy[ny + j] == e);
        }
    }
    assert forall|e: (Seq<char>, Option<Seq<char>>)| vy.contains(e) implies vx.contains(e) by {
        let i = choose|i: int| 0 <= i < vy.len() && vy[i] == e;
        if i < ny {
            assert(x.nodes.contains(y.nodes[i]));
            let j = choose|j: int| 0 <= j < x.nodes.len() && x.nodes[j] == y.nodes[i];
            assert(vx[j] == e);
        } else {
            assert(x.containers.contains(y.containers[i - ny]));
            let j = choose|j: int| 0 <= j < x.containers.len() && x.containers[j] == y.containers[i - ny];
            assert(vx[nx + j] == e);
        }
    }
    assert forall|e: (Seq<char>, Option<Seq<char>>)| px.contains(e) <==> py.contains(e) by {
        if px.contains(e) {
            let i = choose|i: int| 0 <= i < px.len() && px[i] == e;
            assert(y.containers.contains(x.containers[i]));
            let j = choose|j: int| 0 <= j < y.containers.len() && y.containers[j] == x.containers[i];
            assert(py[j] == e);
        }
        if py.contains(e) {
            let i = choose|i: int| 0 <= i < py.len() && py[i] == e;
            assert(x.containers.contains(y.containers[i]));
            let j = choose|j: int| 0 <= j < x.containers.len() && x.containers[j] == y.containers[i];
            assert(px[j] == e);
        }
    }
    assert forall|i: int, j: int| 0 <= i < px.len() && 0 <= j < px.len() && i != j implies (#[trigger] px[i]).0 != (#[trigger] px[j]).0 by {
        assert((|c: ContainerView| c.id)(x.containers[i]) != (|c: ContainerView| c.id)(x.containers[j]));
    }
    assert forall|i: int, j: int| 0 <= i < py.len() && 0 <= j < py.len() && i != j implies (#[trigger] py[i]).0 != (#[trigger] py[j]).0 by {
        assert((|c: ContainerView| c.id)(y.containers[i]) != (|c: ContainerView| c.id)(y.containers[j]));
    }
    assert forall|k: Seq<char>| #[trigger] parent_of(px, k) == parent_of(py, k) by {
        lemma_lookup_reordered(px, py, k);
    }
    assert forall|k: Seq<char>| #[trigger] parent_of(vx, k) == parent_of(vy, k) by {
        lemma_lookup_reordered(vx, vy, k);
    }
    assert forall|k: Seq<char>| has_key(vx, k) <==> has_key(vy, k) by {
        lemma_lookup_reordered(vx, vy, k);
        lemma_lookup_has_key(vx, k);
        lemma_lookup_has_key(vy, k);
    }
    assert forall|k: Seq<char>| is_leaf(x, k) <==> is_leaf(y, k) by {
        if is_leaf(x, k) && !is_leaf(y, k) {
            if exists|i: int| 0 <= i < y.containers.len() && (#[trigger] y.containers[i]).parent == Some(k) {
                let i = choose|i: int| 0 <= i < y.containers.len() && (#[trigger] y.containers[i]).parent == Some(k);
                assert(x.containers.contains(y.containers[i]));
            } else {
                let i = choose|i: int| 0 <= i < y.nodes.len() && (#[trigger] y.nodes[i]).container == Some(k);
                assert(x.nodes.contains(y.nodes[i]));
            }
        }
        if is_leaf(y, k) && !is_leaf(x, k) {
            if exists|i: int| 0 <= i < x.containers.len() && (#[trigger] x.containers[i]).parent == Some(k) {
                let i = choose|i: int| 0 <= i < x.containers.len() && (#[trigger] x.containers[i]).parent == Some(k);
                assert(y.containers.contains(x.containers[i]));
            } else {
                let i = choose|i: int| 0 <= i < x.nodes.len() && (#[trigger] x.nodes[i]).container == Some(k);
                assert(y.nodes.contains(x.nodes[i]));
            }
        }
    }
    assert(key_set(vx) =~= key_set(vy));
    assert(leaf_ids(x) =~= leaf_ids(y));
    assert forall|k: Seq<char>| path_of(x, k) == path_of(y, k) by {
        lemma_chain_congruent(px, py, parent_of(vx, k), x.containers.len() + 1);
    }
    let ids = crate::validation::sorted_ids(leaf_ids(x));
    assert(vertices(x) =~= vertices(y)) by {
        assert forall|i: int| 0 <= i < ids.len() implies vertices(x)[i] == vertices(y)[i] by {
            assert(path_of(x, ids[i]) == path_of(y, ids[i]));
        }
    }
}

// ---------------------------------------------------------------------------
// Validity

/// A section's membership problems are empty exactly when each node's are.
proof fn lemma_membership_within(e: Seq<(Seq<char>, ElementKind)>, s: Seq<NodeView>)
    ensures
        membership_problems(e, s).len() == 0 <==> forall|i: int| 0 <= i < s.len() ==> #[trigger] membership_problems(e, seq![s[i]]).len() == 0,
    decreases s.len(),
{
    if s.len() > 0 {
        let before = s.drop_last();
        lemma_membership_within(e, before);
        let one = seq![s.last()];
        assert(one.drop_last() =~= Seq::<NodeView>::empty());
        assert(one.last() == s.last());
        assert(membership_problems(e, one.drop_last()).len() == 0);
        assert(membership_problems(e, one).len() + membership_problems(e, before).len() == membership_problems(e, s).len());
        if membership_problems(e, s).len() == 0 {
            assert forall|i: int| 0 <= i < s.len() implies #[trigger] membership_problems(e, seq![s[i]]).len() == 0 by {
                if i < s.len() - 1 {
                    assert(before[i] == s[i]);
                }
            }
        } else {
            if forall|i: int| 0 <= i < s.len() ==> #[trigger] membership_problems(e, seq![s[i]]).len() == 0 {
                assert forall|i: int| 0 <= i < before.len() implies #[trigger] membership_problems(e, seq![before[i]]).len() == 0 by {
                    assert(before[i] == s[i]);
                }
                assert(membership_problems(e, seq![s[s.len() - 1]]).len() == 0);
            }
        }
    }
}

/// A section's parent problems are empty exactly when each container's are.
proof fn lemma_parents_within(e: Seq<(Seq<char>, ElementKind)>, s: Seq<ContainerView>)
    ensures
        parent_problems(e, s).len() == 0 <==> forall|i: int| 0 <= i < s.len() ==> #[trigger] parent_problems(e, seq![s[i]]).len() == 0,
    decreases s.len(),
{
    if s.len() > 0 {
        let before = s.drop_last();
        lemma_parents_within(e, before);
        let one = seq![s.last()];
        assert(one.drop_last() =~= Seq::<ContainerView>::empty());
        assert(one.last() == s.last());
        assert(parent_problems(e, one.drop_last()).len() == 0);
        assert(parent_problems(e, one).len() + parent_problems(e, before).len() == parent_problems(e, s).len());
        if parent_problems(e, s).len() == 0 {
            assert forall|i: int| 0 <= i < s.len() implies #[trigger] parent_problems(e, seq![s[i]]).len() == 0 by {
                if i < s.len() - 1 {
                    assert(before[i] == s[i]);
                }
            }
        } else {
            if forall|i: int| 0 <= i < s.len() ==> #[trigger] parent_problems(e, seq![s[i]]).len() == 0 {
                assert forall|i: int| 0 <= i < before.len() implies #[trigger] parent_problems(e, seq![before[i]]).len() == 0 by {
                    assert(before[i] == s[i]);
                }
                assert(parent_problems(e, seq![s[s.len() - 1]]).len() == 0);
            }
        }
    }
}

/// A section's edge problems are empty exactly when each edge's are.
proof fn lemma_edges_within(e: Seq<(Seq<char>, ElementKind)>, s: Seq<EdgeView>)
    ensures
        edge_problems(e, s).len() == 0 <==> forall|i: int| 0 <= i < s.len() ==> #[trigger] edge_problems(e, seq![s[i]]).len() == 0,
    decreases s.len(),
{
    if s.len() > 0 {
        let before = s.drop_last();
        lemma_edges_within(e, before);
        let one = seq![s.last()];
        assert(one.drop_last() =~= Seq::<EdgeView>::empty());
        assert(one.last() == s.last());
        assert(edge_problems(e, one.drop_last()).len() == 0);
        assert(edge_problems(e, one).len() + edge_problems(e, before).len() == edge_problems(e, s).len());
        if edge_problems(e, s).len() == 0 {
            assert forall|i: int| 0 <= i < s.len() implies #[trigger] edge_problems(e, seq![s[i]]).len() == 0 by {
                if i < s.len() - 1 {
                    assert(before[i] == s[i]);
                }
            }
        } else {
            if forall|i: int| 0 <= i < s.len() ==> #[trigger] edge_problems(e, seq![s[i]]).len() == 0 {
                assert forall|i: int| 0 <= i < before.len() implies #[trigger] edge_problems(e, seq![before[i]]).len() == 0 by {
                    assert(before[i] == s[i]);
                }
                assert(edge_problems(e, seq![s[s.len() - 1]]).len() == 0);
            }
        }
    }
}

/// A section's note problems are empty exactly when each note's are.
proof fn lemma_notes_within(e: Seq<(Seq<char>, ElementKind)>, s: Seq<NoteView>)
    ensures
        note_problems(e, s).len() == 0 <==> forall|i: int| 0 <= i < s.len() ==> #[trigger] note_problems(e, seq![s[i]]).len() == 0,
    decreases s.len(),
{
    if s.len() > 0 {
        let before = s.drop_last();
        lemma_notes_within(e, before);
        let one = seq![s.last()];
        assert(one.drop_last() =~= Seq::<NoteView>::empty());
        assert(one.last() == s.last());
        assert(note_problems(e, one.drop_last()).len() == 0);
        assert(note_problems(e, one).len() + note_problems(e, before).len() == note_problems(e, s).len());
        if note_problems(e, s).len() == 0 {
            assert forall|i: int| 0 <= i < s.len() implies #[trigger] note_problems(e, seq![s[i]]).len() == 0 by {
                if i < s.len() - 1 {
                    assert(before[i] == s[i]);
                }
            }
        } else {
            if forall|i: int| 0 <= i < s.len() ==> #[trigger] note_problems(e, seq![s[i]]).len() == 0 {
                assert forall|i: int| 0 <= i < before.len() implies #[trigger] note_problems(e, seq![before[i]]).len() == 0 by {
                    assert(before[i] == s[i]);
                }
                assert(note_problems(e, seq![s[s.len() - 1]]).len() == 0);
            }
        }
    }
}

/// The id problems are empty exactly when every id is a slug and no id repeats.
proof fn lemma_id_problems_clean(e: Seq<(Seq<char>, ElementKind)>)
    ensures
        id_problems(e).len() == 0 <==> (forall|i: int| 0 <= i < e.len() ==> spec_valid_id(#[trigger] e[i].0)) && distinct_keys(e),
    decreases e.len(),
{
    if e.len() > 0 {
        let before = e.drop_last();
        let n = e.len() - 1;
        lemma_id_problems_clean(before);
        if id_problems(e).len() == 0 {
            assert(!has_key(before, e[n].0));
            assert forall|i: int| 0 <= i < e.len() implies spec_valid_id(#[trigger] e[i].0) by {
                if i < n {
                    assert(before[i] == e[i]);
                }
            }
            assert forall|i: int, j: int| 0 <= i < e.len() && 0 <= j < e.len() && i != j implies (#[trigger] e[i]).0 != (#[trigger] e[j]).0 by {
                if i == n {
                    assert(before[j] == e[j]);
                } else if j == n {
                    assert(before[i] == e[i]);
                } else {
                    assert(before[i] == e[i] && before[j] == e[j]);
                }
            }
        }
        if (forall|i: int| 0 <= i < e.len() ==> spec_valid_id(#[trigger] e[i].0)) && distinct_keys(e) {
            assert forall|i: int| 0 <= i < before.len() implies spec_valid_id(#[trigger] before[i].0) by {
                assert(before[i] == e[i]);
            }
            assert forall|i: int, j: int| 0 <= i < before.len() && 0 <= j < before.len() && i != j implies (#[trigger] before[i]).0 != (#[trigger] before[j]).0 by {
                assert(before[i] == e[i] && before[j] == e[j]);
            }
            assert(spec_valid_id(e[n].0));
            if has_key(before, e[n].0) {
                let i = choose|i: int| 0 <= i < before.len() && #[trigger] before[i].0 == e[n].0;
                assert(e[i] == before[i]);
            }
        }
    }
}

/// Walks up the same parent links agree.
proof fn lemma_walk_congruent(
    p: Seq<(Seq<char>, Option<Seq<char>>)>,
    q: Seq<(Seq<char>, Option<Seq<char>>)>,
    seen: Set<Seq<char>>,
    path: Seq<Seq<char>>,
    current: Option<Seq<char>>,
)
    requires
        p.len() == q.len(),
        forall|x: Seq<char>| #[trigger] parent_of(p, x) == parent_of(q, x),
    ensures
        walk(p, seen, path, current) == walk(q, seen, path, current),
    decreases p.len() + 1 - path.len(),
{
    if let Some(id) = current {
        if !path.contains(id) && !(seen.contains(id) || path.len() > p.len()) {
            assert(parent_of(p, id) == parent_of(q, id));
            lemma_walk_congruent(p, q, seen, path.push(id), parent_of(p, id));
        }
    }
}

/// Cycle reports over the same parent links agree.
proof fn lemma_cycle_reports_congruent(
    p: Seq<(Seq<char>, Option<Seq<char>>)>,
    q: Seq<(Seq<char>, Option<Seq<char>>)>,
    starts: Seq<Seq<char>>,
    seen: Set<Seq<char>>,
)
    requires
        p.len() == q.len(),
        forall|x: Seq<char>| #[trigger] parent_of(p, x) == parent_of(q, x),
    ensures
        cycle_reports(p, starts, seen) == cycle_reports(q, starts, seen),
    decreases starts.len(),
{
    if starts.len() > 0 {
        lemma_walk_congruent(p, q, seen, Seq::empty(), Some(starts[0]));
        let (path, _) = walk(p, seen, Seq::empty(), Some(starts[0]));
        lemma_cycle_reports_congruent(p, q, starts.drop_first(), seen + path.to_set());
    }
}

/// Every problem-free record of one listing leaves another listing of
/// the same records problem-free.
proof fn lemma_sections_within(e: Seq<(Seq<char>, ElementKind)>, x: DesignView, y: DesignView)
    requires
        membership_problems(e, x.nodes).len() == 0,
        parent_problems(e, x.containers).len() == 0,
        edge_problems(e, x.edges).len() == 0,
        note_problems(e, x.notes).len() == 0,
        forall|v: ContainerView| y.containers.contains(v) ==> x.containers.contains(v),
        forall|v: NodeView| y.nodes.contains(v) ==> x.nodes.contains(v),
        forall|v: EdgeView| y.edges.contains(v) ==> x.edges.contains(v),
        forall|v: NoteView| y.notes.contains(v) ==> x.notes.contains(v),
    ensures
        membership_problems(e, y.nodes).len() == 0,
        parent_problems(e, y.containers).len() == 0,
        edge_problems(e, y.edges).len() == 0,
        note_problems(e, y.notes).len() == 0,
{
    lemma_membership_within(e, x.nodes);
    lemma_membership_within(e, y.nodes);
    assert forall|i: int| 0 <= i < y.nodes.len() implies #[trigger] membership_problems(e, seq![y.nodes[i]]).len() == 0 by {
        assert(y.nodes.contains(y.nodes[i]));
        let j = choose|j: int| 0 <= j < x.nodes.len() && x.nodes[j] == y.nodes[i];
        assert(membership_problems(e, seq![x.nodes[j]]).len() == 0);
    }
    lemma_parents_within(e, x.containers);
    lemma_parents_within(e, y.containers);
    assert forall|i: int| 0 <= i < y.containers.len() implies #[trigger] parent_problems(e, seq![y.containers[i]]).len() == 0 by {
        assert(y.containers.contains(y.containers[i]));
        let j = choose|j: int| 0 <= j < x.containers.len() && x.containers[j] == y.containers[i];
        assert(parent_problems(e, seq![x.containers[j]]).len() == 0);
    }
    lemma_edges_within(e, x.edges);
    lemma_edges_within(e, y.edges);
    assert forall|i: int| 0 <= i < y.edges.len() implies #[trigger] edge_problems(e, seq![y.edges[i]]).len() == 0 by {
        assert(y.edges.contains(y.edges[i]));
        let j = choose|j: int| 0 <= j < x.edges.len() && x.edges[j] == y.edges[i];
        assert(edge_problems(e, seq![x.edges[j]]).len() == 0);
    }
    lemma_notes_within(e, x.notes);
    lemma_notes_within(e, y.notes);
    assert forall|i: int| 0 <= i < y.notes.len() implies #[trigger] note_problems(e, seq![y.notes[i]]).len() == 0 by {
        assert(y.notes.contains(y.notes[i]));
        let j = choose|j: int| 0 <= j < x.notes.len() && x.notes[j] == y.notes[i];
        assert(note_problems(e, seq![x.notes[j]]).len() == 0);
    }
}

/// The element entries of `y` are those of `x` when `y` lists only
/// records of `x`.
proof fn lemma_entries_within(x: DesignView, y: DesignView)
    requires
        forall|v: ContainerView| y.containers.contains(v) ==> x.containers.contains(v),
        forall|v: NodeView| y.nodes.contains(v) ==> x.nodes.contains(v),
        forall|v: EdgeView| y.edges.contains(v) ==> x.edges.contains(v),
        forall|v: NoteView| y.notes.contains(v) ==> x.notes.contains(v),
    ensures
        forall|p: (Seq<char>, ElementKind)| element_entries(y).contains(p) ==> element_entries(x).contains(p),
{
    lemma_entry_positions(x);
    lemma_entry_positions(y);
    let ex = element_entries(x);
    let ey = element_entries(y);
    let (c, n, g) = (y.containers.len() as int, y.nodes.len() as int, y.edges.len() as int);
    let (xc, xn, xg) = (x.containers.len() as int, x.nodes.len() as int, x.edges.len() as int);
    assert forall|p: (Seq<char>, ElementKind)| ey.contains(p) implies ex.contains(p) by {
        let i = choose|i: int| 0 <= i < ey.len() && ey[i] == p;
        if i < c {
            assert(ey[i] == (y.containers[i].id, ElementKind::Container));
            assert(y.containers.contains(y.containers[i]));
            let j = choose|j: int| 0 <= j < xc && x.containers[j] == y.containers[i];
            assert(ex[j] == p);
        } else if i < c + n {
            let k = i - c;
            assert(ey[c + k] == (y.nodes[k].id, ElementKind::Node));
            assert(y.nodes.contains(y.nodes[k]));
            let j = choose|j: int| 0 <= j < xn && x.nodes[j] == y.nodes[k];
            assert(ex[xc + j] == p);
        } else if i < c + n + g {
            let k = i - c - n;
            assert(ey[c + n + k] == (y.edges[k].id, ElementKind::Edge));
            assert(y.edges.contains(y.edges[k]));
            let j = choose|j: int| 0 <= j < xg && x.edges[j] == y.edges[k];
            assert(ex[xc + xn + j] == p);
        } else {
            let k = i - c - n - g;
            assert(ey[c + n + g + k] == (y.notes[k].id, ElementKind::Note));
            assert(y.notes.contains(y.notes[k]));
            let j = choose|j: int| 0 <= j < x.notes.len() && x.notes[j] == y.notes[k];
            assert(ex[xc + xn + xg + j] == p);
        }
    }
}

/// A design whose ids are unique within each kind and whose entries all
/// occur in a design with distinct ids has distinct ids.
proof fn lemma_entries_distinct(x: DesignView, y: DesignView)
    requires
        distinct_keys(element_entries(x)),
        forall|p: (Seq<char>, ElementKind)| element_entries(y).contains(p) ==> element_entries(x).contains(p),
        unique_keys(y.containers, |c: ContainerView| c.id),
        unique_keys(y.nodes, |n: NodeView| n.id),
        unique_keys(y.edges, |e: EdgeView| e.id),
        unique_keys(y.notes, |n: NoteView| n.id),
    ensures
        distinct_keys(element_entries(y)),
{
    lemma_entry_positions(y);
    let ex = element_entries(x);
    let ey = element_entries(y);
    let (c, n, g) = (y.containers.len() as int, y.nodes.len() as int, y.edges.len() as int);
    assert forall|i: int, j: int| 0 <= i < ey.len() && 0 <= j < ey.len() && i != j implies (#[trigger] ey[i]).0 != (#[trigger] ey[j]).0 by {
        if ey[i].0 == ey[j].0 {
            if ey[i] == ey[j] {
                if i < c {
                    assert(ey[i] == (y.containers[i].id, ElementKind::Container));
                    assert(j < c);
                    assert(ey[j] == (y.containers[j].id, ElementKind::Container));
                    assert((|v: ContainerView| v.id)(y.containers[i]) == (|v: ContainerView| v.id)(y.containers[j]));
                } else if i < c + n {
                    assert(ey[c + (i - c)] == (y.nodes[i - c].id, ElementKind::Node));
                    assert(c <= j < c + n);
                    assert(ey[c + (j - c)] == (y.nodes[j - c].id, ElementKind::Node));
                    assert((|v: NodeView| v.id)(y.nodes[i - c]) == (|v: NodeView| v.id)(y.nodes[j - c]));
                } else if i < c + n + g {
                    assert(ey[c + n + (i - c - n)] == (y.edges[i - c - n].id, ElementKind::Edge));
                    assert(c + n <= j < c + n + g);
                    assert(ey[c + n + (j - c - n)] == (y.edges[j - c - n].id, ElementKind::Edge));
                    assert((|v: EdgeView| v.id)(y.edges[i - c - n]) == (|v: EdgeView| v.id)(y.edges[j - c - n]));
                } else {
                    assert(ey[c + n + g + (i - c - n - g)] == (y.notes[i - c - n - g].id, ElementKind::Note));
                    assert(c + n + g <= j);
                    assert(ey[c + n + g + (j - c - n - g)] == (y.notes[j - c - n - g].id, ElementKind::Note));
                    assert((|v: NoteView| v.id)(y.notes[i - c - n - g]) == (|v: NoteView| v.id)(y.notes[j - c - n - g]));
                }
            } else {
                assert(ey.contains(ey[i]));
                assert(ey.contains(ey[j]));
                let p = choose|p: int| 0 <= p < ex.len() && ex[p] == ey[i];
                let q = choose|q: int| 0 <= q < ex.len() && ex[q] == ey[j];
                assert(ex[p].0 == ex[q].0);
            }
        }
    }
}

/// A design listing the records of a valid design, each kind in another
/// order with no record twice, and the same layout, is valid.
pub(crate) proof fn lemma_valid_rearranged(x: DesignView, y: DesignView)
    requires
        spec_is_valid(x),
        forall|v: ContainerView| x.containers.contains(v) <==> y.containers.contains(v),
        forall|v: NodeView| x.nodes.contains(v) <==> y.nodes.contains(v),
        forall|v: EdgeView| x.edges.contains(v) <==> y.edges.contains(v),
        forall|v: NoteView| x.notes.contains(v) <==> y.notes.contains(v),
        x.containers.len() == y.containers.len(),
        unique_keys(y.containers, |c: ContainerView| c.id),
        unique_keys(y.nodes, |n: NodeView| n.id),
        unique_keys(y.edges, |e: EdgeView| e.id),
        unique_keys(y.notes, |n: NoteView| n.id),
        x.layout == y.layout,
    ensures
        spec_is_valid(y),
{
    let ex = element_entries(x);
    let ey = element_entries(y);
    lemma_id_problems_clean(ex);
    lemma_id_problems_clean(ey);
    lemma_entries_within(x, y);
    lemma_entries_within(y, x);
    lemma_entries_distinct(x, y);
    assert forall|i: int| 0 <= i < ey.len() implies spec_valid_id(#[trigger] ey[i].0) by {
        assert(ey.contains(ey[i]));
        let j = choose|j: int| 0 <= j < ex.len() && ex[j] == ey[i];
        assert(spec_valid_id(ex[j].0));
    }
    assert forall|k: Seq<char>| #[trigger] lookup(ey, k) == lookup(ex, k) by {
        lemma_lookup_reordered(ey, ex, k);
    }
    crate::validation::lemma_sections_congruent(ey, ex, y);
    lemma_sections_within(ex, x, y);
    lemma_valid_ids_distinct(x);
    let px = parent_pairs(x.containers);
    let py = parent_pairs(y.containers);
    lemma_parent_pairs_reordered(x.containers, y.containers);
    assert forall|k: Seq<char>| #[trigger] parent_of(px, k) == parent_of(py, k) by {
        lemma_lookup_reordered(px, py, k);
    }
    assert forall|k: Seq<char>| has_key(px, k) <==> has_key(py, k) by {
        lemma_lookup_reordered(px, py, k);
        lemma_lookup_has_key(px, k);
        lemma_lookup_has_key(py, k);
    }
    assert(key_set(px) =~= key_set(py));
    lemma_cycle_reports_congruent(px, py, crate::validation::sorted_ids(key_set(px)), Set::empty());
}

/// The parent links of two listings of the same containers, ids unique in
/// each, hold the same links, each id once.
proof fn lemma_parent_pairs_reordered(a: Seq<ContainerView>, b: Seq<ContainerView>)
    requires
        forall|v: ContainerView| a.contains(v) <==> b.contains(v),
        unique_keys(a, |c: ContainerView| c.id),
        unique_keys(b, |c: ContainerView| c.id),
    ensures
        forall|e: (Seq<char>, Option<Seq<char>>)| parent_pairs(a).contains(e) <==> parent_pairs(b).contains(e),
        distinct_keys(parent_pairs(a)),
        distinct_keys(parent_pairs(b)),
{
    let pa = parent_pairs(a);
    let pb = parent_pairs(b);
    assert forall|e: (Seq<char>, Option<Seq<char>>)| pa.contains(e) <==> pb.contains(e) by {
        if pa.contains(e) {
            let i = choose|i: int| 0 <= i < pa.len() && pa[i] == e;
            assert(b.contains(a[i]));
            let j = choose|j: int| 0 <= j < b.len() && b[j] == a[i];
            assert(pb[j] == e);
        }
        if pb.contains(e) {
            let i = choose|i: int| 0 <= i < pb.len() && pb[i] == e;
            assert(a.contains(b[i]));
            let j = choose|j: int| 0 <= j < a.len() && a[j] == b[i];
            assert(pa[j] == e);
        }
    }
    assert forall|i: int, j: int| 0 <= i < pa.len() && 0 <= j < pa.len() && i != j implies (#[trigger] pa[i]).0 != (#[trigger] pa[j]).0 by {
        assert((|c: ContainerView| c.id)(a[i]) != (|c: ContainerView| c.id)(a[j]));
    }
    assert forall|i: int, j: int| 0 <= i < pb.len() && 0 <= j < pb.len() && i != j implies (#[trigger] pb[i]).0 != (#[trigger] pb[j]).0 by {
        assert((|c: ContainerView| c.id)(b[i]) != (|c: ContainerView| c.id)(b[j]));
    }
}

/// Records listed with the same multiset as records with unique keys have
/// unique keys.
proof fn lemma_unique_keys_carry<V>(a: Seq<V>, b: Seq<V>, key: spec_fn(V) -> Seq<char>)
    requires
        a.to_multiset() == b.to_multiset(),
        unique_keys(a, key),
    ensures
        unique_keys(b, key),
{
    broadcast use vstd::multiset::group_multiset_axioms;
    assert(a.no_duplicates()) by {
        assert forall|i: int, j: int| 0 <= i < a.len() && 0 <= j < a.len() && i != j implies a[i] != a[j] by {
            assert(key(a[i]) != key(a[j]));
        }
    }
    a.lemma_multiset_has_no_duplicates();
    b.lemma_multiset_has_no_duplicates_conv();
    lemma_same_contents(a, b);
    assert forall|i: int, j: int| 0 <= i < b.len() && 0 <= j < b.len() && i != j implies key(#[trigger] b[i]) != key(#[trigger] b[j]) by {
        assert(b[i] != b[j]);
        assert(b.contains(b[i]) && b.contains(b[j]));
        let p = choose|p: int| 0 <= p < a.len() && a[p] == b[i];
        let q = choose|q: int| 0 <= q < a.len() && a[q] == b[j];
    }
}

/// Whether a design is valid does not depend on the order in which it
/// lists its elements.
#[verifier::spinoff_prover]
#[verifier::rlimit(30)]
pub proof fn law_validity_ignores_element_order(a: DesignView, b: DesignView)
    requires
        spec_is_valid(a),
        reordered(a, b),
    ensures
        spec_is_valid(b),
{
    lemma_valid_ids_distinct(a);
    lemma_unique_keys_carry(a.containers, b.containers, |c: ContainerView| c.id);
    lemma_unique_keys_carry(a.nodes, b.nodes, |n: NodeView| n.id);
    lemma_unique_keys_carry(a.edges, b.edges, |e: EdgeView| e.id);
    lemma_unique_keys_carry(a.notes, b.notes, |n: NoteView| n.id);
    lemma_same_contents(a.containers, b.containers);
    lemma_same_contents(a.nodes, b.nodes);
    lemma_same_contents(a.edges, b.edges);
    lemma_same_contents(a.notes, b.notes);
    lemma_valid_rearranged(a, b);
}

} // verus!
