//! The layered graph behind the automatic layout: its vertices are nodes and
//! empty containers, each with the containers around it; its arcs come from
//! edges, a container endpoint standing for everything inside it. Cycles are
//! broken by dropping the greatest edge id on a cycle, and each vertex is
//! ranked by the longest path of arcs that ends at it.

use vstd::prelude::*;

use crate::ancestry::{acyclic, ancestor, lemma_acyclic_chain_ends, lemma_ancestor_some_below, lemma_sorted_keys_exist};
use crate::id_map::{entry_views, has_key, key_set, lemma_lookup_has_key, lookup, IdMap};
use crate::model::{ContainerView, Design, DesignView, NodeView};
use crate::text::str_eq;
use crate::validation::{
    indexes_parents, lemma_increasing_unique, parent_index, parent_lookup, parent_of, parent_pairs, sorted_ids,
    strictly_increasing,
};

verus! {

// ---------------------------------------------------------------------------
// Vertices

/// The containers above the container `start`, outermost first, followed by
/// `start` itself; empty for no container. `fuel` bounds the climb.
pub open spec fn chain(parents: Seq<(Seq<char>, Option<Seq<char>>)>, start: Option<Seq<char>>, fuel: nat) -> Seq<Seq<char>>
    decreases fuel,
{
    match start {
        None => Seq::empty(),
        Some(a) => if fuel == 0 {
            Seq::empty()
        } else {
            chain(parents, parent_of(parents, a), (fuel - 1) as nat).push(a)
        },
    }
}

/// Each node with its container, then each container with its parent.
pub open spec fn vertex_pairs(d: DesignView) -> Seq<(Seq<char>, Option<Seq<char>>)> {
    d.nodes.map_values(|n: NodeView| (n.id, n.container)) + parent_pairs(d.containers)
}

/// The containers around the node or container `id`, outermost first.
pub open spec fn path_of(d: DesignView, id: Seq<char>) -> Seq<Seq<char>> {
    chain(parent_pairs(d.containers), parent_of(vertex_pairs(d), id), d.containers.len() + 1)
}

/// Nothing is placed inside `id`.
pub open spec fn is_leaf(d: DesignView, id: Seq<char>) -> bool {
    &&& forall|i: int| 0 <= i < d.containers.len() ==> (#[trigger] d.containers[i]).parent != Some(id)
    &&& forall|i: int| 0 <= i < d.nodes.len() ==> (#[trigger] d.nodes[i]).container != Some(id)
}

/// The ids of nodes and of containers with nothing inside.
pub open spec fn leaf_ids(d: DesignView) -> Set<Seq<char>> {
    key_set(vertex_pairs(d)).filter(|x: Seq<char>| is_leaf(d, x))
}

/// The members of `s` with nothing inside.
pub open spec fn leaves_among(d: DesignView, s: Set<Seq<char>>) -> Set<Seq<char>> {
    s.filter(|x: Seq<char>| is_leaf(d, x))
}

/// The layout's vertices in id order, each with the containers around it.
pub open spec fn vertices(d: DesignView) -> Seq<(Seq<char>, Seq<Seq<char>>)> {
    sorted_ids(leaf_ids(d)).map_values(|x: Seq<char>| (x, path_of(d, x)))
}

/// A node or an empty container, with the containers around it, outermost first.
#[derive(Debug)]
pub struct Vertex {
    pub id: String,
    pub path: Vec<String>,
}

impl View for Vertex {
    type V = (Seq<char>, Seq<Seq<char>>);

    open spec fn view(&self) -> (Seq<char>, Seq<Seq<char>>) {
        (self.id@, self.path.deep_view())
    }
}

pub open spec fn vertex_views(vs: Seq<Vertex>) -> Seq<(Seq<char>, Seq<Seq<char>>)> {
    vs.map_values(|v: Vertex| v@)
}

/// The containers above `parent`, outermost first, then `parent`.
pub(crate) fn ancestors(index: &IdMap<usize>, design: &Design, parent: &Option<String>) -> (path: Vec<String>)
    requires
        indexes_parents(index@, design@.containers),
        acyclic(parent_pairs(design@.containers)),
    ensures
        path.deep_view() == chain(parent_pairs(design@.containers), parent.deep_view(), design@.containers.len() + 1),
{
    let ghost parents = parent_pairs(design@.containers);
    let ghost fuel: nat = design@.containers.len() + 1;
    let ghost start = parent.deep_view();
    let mut path: Vec<String> = Vec::new();
    let mut current: Option<String> = crate::model::clone_opt(parent);
    let ghost mut k: nat = 0;
    proof {
        assert(path.deep_view() =~= Seq::<Seq<char>>::empty());
        assert(chain(parents, start, fuel) =~= chain(parents, start, fuel) + path.deep_view());
    }
    while current.is_some()
        invariant
            indexes_parents(index@, design@.containers),
            acyclic(parents),
            parents == parent_pairs(design@.containers),
            parents.len() == design@.containers.len(),
            fuel == design@.containers.len() + 1,
            start == parent.deep_view(),
            k <= fuel,
            chain(parents, start, fuel) == chain(parents, current.deep_view(), (fuel - k) as nat) + path.deep_view(),
            start matches Some(p0) ==> current.deep_view() == ancestor(parents, p0, k),
            start is None ==> current is None,
        decreases fuel - k,
    {
        let a = current.unwrap();
        let ghost p0 = start.unwrap();
        proof {
            if k >= fuel {
                lemma_acyclic_chain_ends(parents, p0);
                lemma_ancestor_some_below(parents, p0, fuel, k);
            }
        }
        let next = parent_lookup(index, design, &a);
        let ghost rest = path.deep_view();
        proof {
            let f = (fuel - k) as nat;
            assert(chain(parents, Some(a@), f) == chain(parents, parent_of(parents, a@), (f - 1) as nat).push(a@));
            assert(chain(parents, Some(a@), f) + rest =~= chain(parents, parent_of(parents, a@), (f - 1) as nat) + (seq![a@] + rest));
            assert(ancestor(parents, p0, k + 1) == parent_of(parents, a@));
        }
        path.insert(0, a);
        proof {
            assert(path.deep_view() =~= seq![path@[0]@] + rest);
            k = k + 1;
        }
        current = next;
    }
    proof {
        assert(path.deep_view() =~= chain(parents, None, (fuel - k) as nat) + path.deep_view());
    }
    path
}


/// Whether nothing is placed inside `id`.
fn leaf(design: &Design, id: &str) -> (found: bool)
    ensures
        found == is_leaf(design@, id@),
{
    let mut i: usize = 0;
    while i < design.containers.len()
        invariant
            i <= design.containers.len(),
            forall|j: int| 0 <= j < i ==> (#[trigger] design@.containers[j]).parent != Some(id@),
        decreases design.containers.len() - i,
    {
        if let Some(parent) = &design.containers[i].parent {
            if str_eq(parent.as_str(), id) {
                assert(design@.containers[i as int].parent == Some(id@));
                return false;
            }
        }
        i = i + 1;
    }
    let mut i: usize = 0;
    while i < design.nodes.len()
        invariant
            i <= design.nodes.len(),
            forall|j: int| 0 <= j < design@.containers.len() ==> (#[trigger] design@.containers[j]).parent != Some(id@),
            forall|j: int| 0 <= j < i ==> (#[trigger] design@.nodes[j]).container != Some(id@),
        decreases design.nodes.len() - i,
    {
        if let Some(container) = &design.nodes[i].container {
            if str_eq(container.as_str(), id) {
                assert(design@.nodes[i as int].container == Some(id@));
                return false;
            }
        }
        i = i + 1;
    }
    true
}

/// `index` locates, for each node or container id, the record that
/// `vertex_pairs` last lists for it: a node (`true`) or a container.
pub open spec fn indexes_vertices(index: Seq<(Seq<char>, (bool, usize))>, d: DesignView, pairs: Seq<(Seq<char>, Option<Seq<char>>)>) -> bool {
    forall|x: Seq<char>|
        #![trigger lookup(index, x)]
        (lookup(index, x) is Some <==> has_key(pairs, x)) && (lookup(index, x) matches Some((node, i)) ==> if node {
            i < d.nodes.len() && lookup(pairs, x) == Some(d.nodes[i as int].container)
        } else {
            i < d.containers.len() && lookup(pairs, x) == Some(d.containers[i as int].parent)
        })
}

proof fn lemma_index_step(
    before: Seq<(Seq<char>, (bool, usize))>,
    after: Seq<(Seq<char>, (bool, usize))>,
    d: DesignView,
    pre: Seq<(Seq<char>, Option<Seq<char>>)>,
    key: Seq<char>,
    at: (bool, usize),
    parent: Option<Seq<char>>,
)
    requires
        indexes_vertices(before, d, pre),
        forall|x: Seq<char>| #[trigger] lookup(after, x) == if x == key { Some(at) } else { lookup(before, x) },
        at.0 ==> at.1 < d.nodes.len() && d.nodes[at.1 as int].container == parent,
        !at.0 ==> at.1 < d.containers.len() && d.containers[at.1 as int].parent == parent,
    ensures
        indexes_vertices(after, d, pre.push((key, parent))),
{
    let post = pre.push((key, parent));
    assert(post.drop_last() =~= pre);
    assert forall|x: Seq<char>| #![trigger lookup(after, x)] true implies
        (lookup(after, x) is Some <==> has_key(post, x)) && (lookup(after, x) matches Some((node, i)) ==> if node {
            i < d.nodes.len() && lookup(post, x) == Some(d.nodes[i as int].container)
        } else {
            i < d.containers.len() && lookup(post, x) == Some(d.containers[i as int].parent)
        }) by {
        lemma_lookup_has_key(post, x);
        lemma_lookup_has_key(pre, x);
        assert(lookup(before, x) is Some <==> has_key(pre, x));
    }
}

/// Index every node and container id by the record `vertex_pairs` last lists for it.
fn vertex_index(design: &Design) -> (index: IdMap<(bool, usize)>)
    ensures
        indexes_vertices(index@, design@, vertex_pairs(design@)),
{
    let ghost d = design@;
    let ghost node_part = d.nodes.map_values(|n: NodeView| (n.id, n.container));
    let mut index: IdMap<(bool, usize)> = IdMap::new();
    proof {
        assert(node_part.take(0) =~= Seq::<(Seq<char>, Option<Seq<char>>)>::empty());
    }
    for i in 0..design.nodes.len()
        invariant
            d == design@,
            node_part == d.nodes.map_values(|n: NodeView| (n.id, n.container)),
            indexes_vertices(index@, d, node_part.take(i as int)),
    {
        let ghost before = index@;
        index.insert(design.nodes[i].id.clone(), (true, i));
        proof {
            assert(node_part.take(i + 1) =~= node_part.take(i as int).push((d.nodes[i as int].id, d.nodes[i as int].container)));
            lemma_index_step(before, index@, d, node_part.take(i as int), d.nodes[i as int].id, (true, i), d.nodes[i as int].container);
        }
    }
    let ghost container_part = parent_pairs(d.containers);
    proof {
        assert(node_part.take(d.nodes.len() as int) =~= node_part + container_part.take(0));
    }
    for j in 0..design.containers.len()
        invariant
            d == design@,
            container_part == parent_pairs(d.containers),
            indexes_vertices(index@, d, node_part + container_part.take(j as int)),
    {
        let ghost before = index@;
        index.insert(design.containers[j].id.clone(), (false, j));
        proof {
            let c = d.containers[j as int];
            assert(node_part + container_part.take(j + 1) =~= (node_part + container_part.take(j as int)).push((c.id, c.parent)));
            lemma_index_step(before, index@, d, node_part + container_part.take(j as int), c.id, (false, j), c.parent);
        }
    }
    proof {
        assert(node_part + container_part.take(d.containers.len() as int) =~= vertex_pairs(d));
    }
    index
}

/// Every node and container in id order, each with the containers around it.
pub open spec fn all_paths(d: DesignView) -> Seq<(Seq<char>, Seq<Seq<char>>)> {
    sorted_ids(key_set(vertex_pairs(d))).map_values(|x: Seq<char>| (x, path_of(d, x)))
}

/// A strictly increasing listing of a set is its sorted listing.
proof fn lemma_sorted_ids_of(keys: Seq<Seq<char>>, s: Set<Seq<char>>)
    requires
        strictly_increasing(keys),
        keys.to_set() == s,
    ensures
        sorted_ids(s) == keys,
{
    let t = sorted_ids(s);
    assert(strictly_increasing(t) && t.to_set() == s);
    lemma_increasing_unique(t, keys);
}

/// The key listing of a map in id order is the sorted listing of its keys.
proof fn lemma_map_keys_sorted<V>(m: Seq<(Seq<char>, V)>)
    requires
        crate::id_map::keys_increasing(m),
    ensures
        sorted_ids(key_set(m)) == crate::validation::keys_of(m),
{
    let keys = crate::validation::keys_of(m);
    assert(keys.to_set() =~= key_set(m)) by {
        assert forall|x: Seq<char>| keys.to_set().contains(x) <==> key_set(m).contains(x) by {
            if keys.contains(x) {
                let j = choose|j: int| 0 <= j < keys.len() && #[trigger] keys[j] == x;
                assert(m[j].0 == x);
            }
            if has_key(m, x) {
                let j = choose|j: int| 0 <= j < m.len() && #[trigger] m[j].0 == x;
                assert(keys[j] == x);
            }
        }
    }
    lemma_sorted_ids_of(keys, key_set(m));
}

/// Every node and container in id order, each with the containers around
/// it, outermost first.
pub fn paths(design: &Design) -> (out: Vec<Vertex>)
    requires
        acyclic(parent_pairs(design@.containers)),
    ensures
        vertex_views(out@) == all_paths(design@),
{
    let ghost d = design@;
    let index = vertex_index(design);
    let parents = parent_index(design);
    let items = index.items();
    let ghost keys = crate::validation::keys_of(index@);
    proof {
        use_type_invariant(&index);
        lemma_map_keys_sorted(index@);
        assert forall|x: Seq<char>| key_set(index@).contains(x) <==> key_set(vertex_pairs(d)).contains(x) by {
            lemma_lookup_has_key(index@, x);
            lemma_lookup_has_key(vertex_pairs(d), x);
        }
        assert(key_set(index@) =~= key_set(vertex_pairs(d)));
    }
    let mut out: Vec<Vertex> = Vec::new();
    for i in 0..items.len()
        invariant
            d == design@,
            entry_views(items@) == index@,
            keys == crate::validation::keys_of(index@),
            crate::id_map::keys_increasing(index@),
            indexes_vertices(index@, d, vertex_pairs(d)),
            indexes_parents(parents@, d.containers),
            acyclic(parent_pairs(d.containers)),
            vertex_views(out@) == keys.take(i as int).map_values(|x: Seq<char>| (x, path_of(d, x))),
    {
        let (node, j) = items[i].1;
        proof {
            crate::id_map::lemma_lookup_entry(index@, i as int);
            assert(lookup(index@, index@[i as int].0) == Some((node, j)));
        }
        let parent = if node {
            &design.nodes[j].container
        } else {
            &design.containers[j].parent
        };
        let path = ancestors(&parents, design, parent);
        let ghost before = out@;
        out.push(Vertex { id: items[i].0.clone(), path });
        proof {
            let x = index@[i as int].0;
            crate::id_map::lemma_lookup_entry(index@, i as int);
            assert(lookup(index@, x) == Some((node, j)));
            assert(parent_of(vertex_pairs(d), x) == parent.deep_view());
            assert(vertex_views(out@) =~= vertex_views(before).push((x, path_of(d, x))));
            assert(keys.take(i + 1) =~= keys.take(i as int).push(x));
            assert(vertex_views(out@) =~= keys.take(i + 1).map_values(|x: Seq<char>| (x, path_of(d, x))));
        }
    }
    proof {
        assert(keys.take(items.len() as int) =~= keys);
    }
    out
}

/// The sorted listing of a map's keys exists.
proof fn lemma_sorted_key_listing<V>(m: Seq<(Seq<char>, V)>)
    ensures
        strictly_increasing(sorted_ids(key_set(m))),
        sorted_ids(key_set(m)).to_set() == key_set(m),
{
    lemma_sorted_keys_exist(m);
    let w = crate::ancestry::sorted_keys(m);
    assert(strictly_increasing(w) && w.to_set() == key_set(m));
}

/// The vertices among `paths`: nodes and containers with nothing inside.
pub fn leaves(design: &Design, paths: &Vec<Vertex>) -> (out: Vec<Vertex>)
    requires
        vertex_views(paths@) == all_paths(design@),
    ensures
        vertex_views(out@) == vertices(design@),
        strictly_increasing(sorted_ids(leaf_ids(design@))),
        sorted_ids(leaf_ids(design@)).to_set() == leaf_ids(design@),
{
    broadcast use vstd::set::group_set_axioms;
    let ghost d = design@;
    let ghost keys = sorted_ids(key_set(vertex_pairs(d)));
    proof {
        lemma_sorted_key_listing(vertex_pairs(d));
    }
    let mut out: Vec<Vertex> = Vec::new();
    let ghost mut taken: Seq<Seq<char>> = Seq::empty();
    proof {
        assert(vertex_views(paths@).len() == paths@.len());
        assert(taken.to_set() =~= leaves_among(d, keys.take(0).to_set()));
        assert(vertex_views(out@) =~= taken.map_values(|x: Seq<char>| (x, path_of(d, x))));
    }
    for i in 0..paths.len()
        invariant
            d == design@,
            vertex_views(paths@) == all_paths(d),
            keys == sorted_ids(key_set(vertex_pairs(d))),
            strictly_increasing(keys),
            paths.len() == keys.len(),
            strictly_increasing(taken),
            taken.len() == out.len(),
            taken.to_set() == leaves_among(d, keys.take(i as int).to_set()),
            forall|k: int| 0 <= k < taken.len() ==> keys.take(i as int).contains(#[trigger] taken[k]),
            vertex_views(out@) == taken.map_values(|x: Seq<char>| (x, path_of(d, x))),
    {
        let is_leaf_vertex = leaf(design, paths[i].id.as_str());
        proof {
            assert(vertex_views(paths@)[i as int] == paths@[i as int]@);
            assert(paths@[i as int].id@ == keys[i as int]);
            assert(keys.take(i + 1) =~= keys.take(i as int).push(keys[i as int]));
        }
        if is_leaf_vertex {
            let ghost before = out@;
            let v = Vertex { id: paths[i].id.clone(), path: crate::model::clone_strings(&paths[i].path) };
            out.push(v);
            proof {
                let x = keys[i as int];
                assert forall|a: int, b: int| 0 <= a < b < taken.push(x).len() implies crate::text::lex_lt(
                    #[trigger] taken.push(x)[a],
                    #[trigger] taken.push(x)[b],
                ) by {
                    if b == taken.len() {
                        assert(keys.take(i as int).contains(taken[a]));
                        let m = choose|m: int| 0 <= m < keys.take(i as int).len() && #[trigger] keys.take(i as int)[m] == taken[a];
                        assert(keys[m] == taken.push(x)[a]);
                    } else {
                        assert(taken.push(x)[a] == taken[a] && taken.push(x)[b] == taken[b]);
                    }
                }
                assert(is_leaf(d, x));
                assert forall|y: Seq<char>| #[trigger] taken.push(x).to_set().contains(y) <==> leaves_among(d, keys.take(i + 1).to_set()).contains(y) by {
                    let lhs = taken.push(x).contains(y);
                    let old_side = taken.contains(y);
                    assert(old_side == leaves_among(d, keys.take(i as int).to_set()).contains(y));
                    assert(old_side == (keys.take(i as int).contains(y) && is_leaf(d, y)));
                    let grown = keys.take(i + 1).contains(y);
                    if keys.take(i as int).contains(y) {
                        let k = choose|k: int| 0 <= k < keys.take(i as int).len() && #[trigger] keys.take(i as int)[k] == y;
                        assert(keys.take(i + 1)[k] == y);
                    }
                    if grown && y != x {
                        let k = choose|k: int| 0 <= k < keys.take(i + 1).len() && #[trigger] keys.take(i + 1)[k] == y;
                        assert(keys.take(i as int)[k] == y);
                    }
                    assert(keys.take(i + 1)[i as int] == x);
                    assert(grown == (keys.take(i as int).contains(y) || y == x));
                    if old_side {
                        let k = choose|k: int| 0 <= k < taken.len() && #[trigger] taken[k] == y;
                        assert(taken.push(x)[k] == y);
                    }
                    if lhs && y != x {
                        let k = choose|k: int| 0 <= k < taken.push(x).len() && #[trigger] taken.push(x)[k] == y;
                        assert(taken[k] == y);
                    }
                    assert(taken.push(x)[taken.len() as int] == x);
                    assert(lhs == (old_side || y == x));
                }
                assert(taken.push(x).to_set() =~= leaves_among(d, keys.take(i + 1).to_set()));
                assert(vertex_views(out@) =~= vertex_views(before).push((x, path_of(d, x))));
                taken = taken.push(x);
                assert forall|k: int| 0 <= k < taken.len() implies keys.take(i + 1).contains(#[trigger] taken[k]) by {
                    if k < taken.len() - 1 {
                        assert(keys.take(i as int).contains(taken.drop_last()[k]));
                        let m = choose|m: int| 0 <= m < keys.take(i as int).len() && #[trigger] keys.take(i as int)[m] == taken.drop_last()[k];
                        assert(keys.take(i + 1)[m] == taken[k]);
                    } else {
                        assert(keys.take(i + 1)[i as int] == taken[k]);
                    }
                }
                assert(vertex_views(out@) =~= taken.map_values(|x: Seq<char>| (x, path_of(d, x))));
            }
        } else {
            proof {
                let x = keys[i as int];
                assert(!is_leaf(d, x));
                assert forall|y: Seq<char>| #[trigger] leaves_among(d, keys.take(i + 1).to_set()).contains(y) implies leaves_among(d, keys.take(i as int).to_set()).contains(y) by {
                    if keys.take(i + 1).contains(y) && y != x {
                        let k = choose|k: int| 0 <= k < keys.take(i + 1).len() && #[trigger] keys.take(i + 1)[k] == y;
                        assert(keys.take(i as int)[k] == y);
                    }
                }
                assert forall|y: Seq<char>| #[trigger] keys.take(i as int).contains(y) implies keys.take(i + 1).contains(y) by {
                    if keys.take(i as int).contains(y) {
                        let k = choose|k: int| 0 <= k < keys.take(i as int).len() && #[trigger] keys.take(i as int)[k] == y;
                        assert(keys.take(i + 1)[k] == y);
                    }
                }
                assert(taken.to_set() =~= leaves_among(d, keys.take(i + 1).to_set()));
                assert forall|k: int| 0 <= k < taken.len() implies keys.take(i + 1).contains(#[trigger] taken[k]) by {
                    assert(keys.take(i as int).contains(taken[k]));
                }
            }
        }
    }
    proof {
        assert(keys.take(paths.len() as int) =~= keys);
        assert(taken.to_set() =~= leaf_ids(d));
        lemma_sorted_ids_of(taken, leaf_ids(d));
    }
    out
}

// ---------------------------------------------------------------------------
// Arcs

/// A connection between two vertices, from the edge `id`.
#[derive(Debug)]
pub struct Arc {
    pub id: String,
    pub from: String,
    pub to: String,
}

impl View for Arc {
    type V = (Seq<char>, Seq<char>, Seq<char>);

    open spec fn view(&self) -> (Seq<char>, Seq<char>, Seq<char>) {
        (self.id@, self.from@, self.to@)
    }
}

pub open spec fn arc_views(arcs: Seq<Arc>) -> Seq<(Seq<char>, Seq<char>, Seq<char>)> {
    arcs.map_values(|a: Arc| a@)
}

/// The vertices inside the container `x`, in vertex order.
pub open spec fn inside(vs: Seq<(Seq<char>, Seq<Seq<char>>)>, x: Seq<char>) -> Seq<Seq<char>>
    decreases vs.len(),
{
    if vs.len() == 0 {
        Seq::empty()
    } else {
        inside(vs.drop_last(), x) + if vs.last().1.contains(x) {
            seq![vs.last().0]
        } else {
            Seq::empty()
        }
    }
}

/// What an edge endpoint stands for: the vertices inside it, or the
/// endpoint itself when nothing is inside it.
pub open spec fn endpoints(vs: Seq<(Seq<char>, Seq<Seq<char>>)>, x: Seq<char>) -> Seq<Seq<char>> {
    if inside(vs, x).len() == 0 {
        seq![x]
    } else {
        inside(vs, x)
    }
}

/// The arcs of the edge `id`: every source with every target, sources in order.
pub open spec fn edge_arcs(id: Seq<char>, froms: Seq<Seq<char>>, tos: Seq<Seq<char>>) -> Seq<(Seq<char>, Seq<char>, Seq<char>)>
    decreases froms.len(),
{
    if froms.len() == 0 {
        Seq::empty()
    } else {
        edge_arcs(id, froms.drop_last(), tos) + tos.map_values(|t: Seq<char>| (id, froms.last(), t))
    }
}

/// The arcs of the edges, edge by edge.
pub open spec fn arcs_of(vs: Seq<(Seq<char>, Seq<Seq<char>>)>, edges: Seq<crate::model::EdgeView>) -> Seq<(Seq<char>, Seq<char>, Seq<char>)>
    decreases edges.len(),
{
    if edges.len() == 0 {
        Seq::empty()
    } else {
        arcs_of(vs, edges.drop_last()) + edge_arcs(edges.last().id, endpoints(vs, edges.last().from), endpoints(vs, edges.last().to))
    }
}

/// The design's arcs: edges in id order, each expanded to its arcs.
pub open spec fn design_arcs(d: DesignView) -> Seq<(Seq<char>, Seq<char>, Seq<char>)> {
    arcs_of(vertices(d), crate::edit::sorted_by_id(d.edges, crate::edit::edge_ids(d.edges)))
}

/// The vertices an edge endpoint stands for.
fn endpoint_vertices(vertices: &Vec<Vertex>, x: &str) -> (out: Vec<String>)
    ensures
        out.deep_view() == endpoints(vertex_views(vertices@), x@),
{
    let ghost vs = vertex_views(vertices@);
    let mut out: Vec<String> = Vec::new();
    for i in 0..vertices.len()
        invariant
            vs == vertex_views(vertices@),
            out.deep_view() == inside(vs.take(i as int), x@),
    {
        let v = &vertices[i];
        let mut found = false;
        let mut k: usize = 0;
        while k < v.path.len()
            invariant
                k <= v.path.len(),
                found == v.path.deep_view().take(k as int).contains(x@),
            decreases v.path.len() - k,
        {
            let ghost before = v.path.deep_view().take(k as int);
            proof {
                assert(v.path.deep_view().take(k + 1) =~= before.push(v.path@[k as int]@));
            }
            if str_eq(v.path[k].as_str(), x) {
                found = true;
                proof {
                    assert(v.path.deep_view().take(k + 1)[k as int] == x@);
                }
            } else if found {
                proof {
                    let j = choose|j: int| 0 <= j < before.len() && #[trigger] before[j] == x@;
                    assert(v.path.deep_view().take(k + 1)[j] == x@);
                }
            } else {
                proof {
                    if v.path.deep_view().take(k + 1).contains(x@) {
                        let j = choose|j: int| 0 <= j < v.path.deep_view().take(k + 1).len() && #[trigger] v.path.deep_view().take(k + 1)[j] == x@;
                        if j < k {
                            assert(before[j] == x@);
                        }
                    }
                }
            }
            k = k + 1;
        }
        proof {
            assert(v.path.deep_view().take(v.path.len() as int) =~= v.path.deep_view());
            assert(vs.take(i + 1).drop_last() =~= vs.take(i as int));
            assert(vs.take(i + 1).last() == v@);
        }
        if found {
            let ghost before = out.deep_view();
            out.push(v.id.clone());
            proof {
                assert(out.deep_view() =~= before + seq![v.id@]);
            }
        } else {
            proof {
                assert(out.deep_view() =~= out.deep_view() + Seq::<Seq<char>>::empty());
            }
        }
    }
    proof {
        assert(vs.take(vertices.len() as int) =~= vs);
    }
    if out.len() == 0 {
        let mut single: Vec<String> = Vec::new();
        single.push(String::from_str(x));
        proof {
            assert(single.deep_view() =~= seq![x@]);
        }
        single
    } else {
        out
    }
}

/// The arcs of every edge, edges in id order; a container endpoint stands
/// for every vertex inside it, and an empty container for itself.
pub fn arcs(design: &Design, vertices: &Vec<Vertex>) -> (out: Vec<Arc>)
    ensures
        arc_views(out@) == arcs_of(vertex_views(vertices@), crate::edit::sorted_by_id(design@.edges, crate::edit::edge_ids(design@.edges))),
        crate::order::is_id_order(crate::edit::edge_ids(design@.edges), crate::order::spec_id_order(crate::edit::edge_ids(design@.edges))),
{
    let ghost vs = vertex_views(vertices@);
    let edges = design.list_edges();
    let ghost es = edges@.map_values(|r: &crate::model::Edge| r@);
    let mut out: Vec<Arc> = Vec::new();
    proof {
        assert(es.take(0) =~= Seq::<crate::model::EdgeView>::empty());
        assert(arc_views(out@) =~= Seq::<(Seq<char>, Seq<char>, Seq<char>)>::empty());
    }
    for k in 0..edges.len()
        invariant
            vs == vertex_views(vertices@),
            es == edges@.map_values(|r: &crate::model::Edge| r@),
            arc_views(out@) == arcs_of(vs, es.take(k as int)),
    {
        let edge = edges[k];
        let froms = endpoint_vertices(vertices, edge.from.as_str());
        let tos = endpoint_vertices(vertices, edge.to.as_str());
        let ghost start = arc_views(out@);
        proof {
            assert(es.take(k + 1).drop_last() =~= es.take(k as int));
            assert(es.take(k + 1).last() == edge@);
            assert(froms.deep_view().take(0) =~= Seq::<Seq<char>>::empty());
        }
        for a in 0..froms.len()
            invariant
                arc_views(out@) == start + edge_arcs(edge.id@, froms.deep_view().take(a as int), tos.deep_view()),
        {
            let ghost row_start = arc_views(out@);
            proof {
                assert(tos.deep_view().take(0) =~= Seq::<Seq<char>>::empty());
            }
            for b in 0..tos.len()
                invariant
                    a < froms.len(),
                    arc_views(out@) == row_start + tos.deep_view().take(b as int).map_values(|t: Seq<char>| (edge.id@, froms@[a as int]@, t)),
            {
                let ghost before = arc_views(out@);
                out.push(Arc { id: edge.id.clone(), from: froms[a].clone(), to: tos[b].clone() });
                proof {
                    assert(arc_views(out@) =~= before.push((edge.id@, froms@[a as int]@, tos@[b as int]@)));
                    assert(tos.deep_view().take(b + 1) =~= tos.deep_view().take(b as int).push(tos@[b as int]@));
                    assert(tos.deep_view().take(b + 1).map_values(|t: Seq<char>| (edge.id@, froms@[a as int]@, t))
                        =~= tos.deep_view().take(b as int).map_values(|t: Seq<char>| (edge.id@, froms@[a as int]@, t)).push((edge.id@, froms@[a as int]@, tos@[b as int]@)));
                }
            }
            proof {
                assert(tos.deep_view().take(tos.len() as int) =~= tos.deep_view());
                let fa = froms.deep_view().take(a + 1);
                assert(fa.drop_last() =~= froms.deep_view().take(a as int));
                assert(fa.last() == froms@[a as int]@);
                assert(arc_views(out@) =~= start + edge_arcs(edge.id@, fa, tos.deep_view()));
            }
        }
        proof {
            assert(froms.deep_view().take(froms.len() as int) =~= froms.deep_view());
            assert(arc_views(out@) =~= arcs_of(vs, es.take(k + 1)));
        }
    }
    proof {
        assert(es.take(edges.len() as int) =~= es);
    }
    out
}

// ---------------------------------------------------------------------------
// Reachability and cycles

/// Some arc leads from `u` to `v`.
pub open spec fn has_arc(arcs: Seq<(Seq<char>, Seq<char>, Seq<char>)>, u: Seq<char>, v: Seq<char>) -> bool {
    exists|k: int| 0 <= k < arcs.len() && (#[trigger] arcs[k]).1 == u && arcs[k].2 == v
}

/// `p` is a nonempty sequence of vertices, each joined to the next by an arc.
pub open spec fn is_walk(arcs: Seq<(Seq<char>, Seq<char>, Seq<char>)>, p: Seq<Seq<char>>) -> bool {
    &&& p.len() >= 1
    &&& forall|i: int| 0 <= i < p.len() - 1 ==> #[trigger] has_arc(arcs, p[i], p[i + 1])
}

/// Following arcs leads from `a` to `b`; every vertex reaches itself.
pub open spec fn reaches(arcs: Seq<(Seq<char>, Seq<char>, Seq<char>)>, a: Seq<char>, b: Seq<char>) -> bool {
    exists|p: Seq<Seq<char>>| #[trigger] is_walk(arcs, p) && p[0] == a && p.last() == b
}

proof fn lemma_reaches_self(arcs: Seq<(Seq<char>, Seq<char>, Seq<char>)>, a: Seq<char>)
    ensures
        reaches(arcs, a, a),
{
    assert(is_walk(arcs, seq![a]));
}

proof fn lemma_reaches_step(arcs: Seq<(Seq<char>, Seq<char>, Seq<char>)>, a: Seq<char>, k: int)
    requires
        0 <= k < arcs.len(),
        reaches(arcs, a, arcs[k].1),
    ensures
        reaches(arcs, a, arcs[k].2),
{
    let p = choose|p: Seq<Seq<char>>| #[trigger] is_walk(arcs, p) && p[0] == a && p.last() == arcs[k].1;
    let q = p.push(arcs[k].2);
    assert forall|i: int| 0 <= i < q.len() - 1 implies #[trigger] has_arc(arcs, q[i], q[i + 1]) by {
        if i < p.len() - 1 {
            assert(q[i] == p[i] && q[i + 1] == p[i + 1]);
            assert(has_arc(arcs, p[i], p[i + 1]));
        } else {
            assert(arcs[k].1 == q[i] && arcs[k].2 == q[i + 1]);
        }
    }
    assert(is_walk(arcs, q));
}

/// A set of vertices closed under arcs holds every vertex its members reach.
proof fn lemma_closed_holds_reached(
    arcs: Seq<(Seq<char>, Seq<char>, Seq<char>)>,
    closed: Set<Seq<char>>,
    p: Seq<Seq<char>>,
)
    requires
        is_walk(arcs, p),
        closed.contains(p[0]),
        forall|k: int| 0 <= k < arcs.len() && closed.contains(#[trigger] arcs[k].1) ==> closed.contains(arcs[k].2),
    ensures
        closed.contains(p.last()),
    decreases p.len(),
{
    if p.len() > 1 {
        let q = p.drop_last();
        assert forall|i: int| 0 <= i < q.len() - 1 implies #[trigger] has_arc(arcs, q[i], q[i + 1]) by {
            assert(has_arc(arcs, p[i], p[i + 1]));
        }
        lemma_closed_holds_reached(arcs, closed, q);
        let i = p.len() - 2;
        assert(has_arc(arcs, p[i], p[i + 1]));
        assert(p[i + 1] == p.last() && q.last() == p[i]);
        let k = choose|k: int| 0 <= k < arcs.len() && (#[trigger] arcs[k]).1 == p[p.len() - 2] && arcs[k].2 == p[p.len() - 1];
        assert(closed.contains(arcs[k].1));
    }
}

/// The targets of the arcs and `from`: every vertex a search from `from` can meet.
pub open spec fn met(arcs: Seq<(Seq<char>, Seq<char>, Seq<char>)>, from: Seq<char>) -> Seq<(Seq<char>, ())> {
    seq![(from, ())] + arcs.map_values(|a: (Seq<char>, Seq<char>, Seq<char>)| (a.2, ()))
}

/// A map with distinct keys, all of them keys of `universe`, is no longer than it.
proof fn lemma_keys_bound<V, W>(m: Seq<(Seq<char>, V)>, universe: Seq<(Seq<char>, W)>)
    requires
        crate::id_map::keys_increasing(m),
        forall|x: Seq<char>| #[trigger] has_key(m, x) ==> has_key(universe, x),
    ensures
        m.len() <= universe.len(),
{
    let keys = crate::validation::keys_of(m);
    assert forall|j: int| 0 <= j < keys.len() implies has_key(universe, #[trigger] keys[j]) by {
        assert(has_key(m, m[j].0));
    }
    assert(keys.no_duplicates()) by {
        assert forall|i: int, j: int| 0 <= i < keys.len() && 0 <= j < keys.len() && i != j implies keys[i] != keys[j] by {
            if i < j {
                assert(crate::text::lex_lt(m[i].0, m[j].0));
                crate::text::lemma_lex_irreflexive(keys[i]);
            } else {
                assert(crate::text::lex_lt(m[j].0, m[i].0));
                crate::text::lemma_lex_irreflexive(keys[j]);
            }
        }
    }
    crate::validation::lemma_distinct_keys_bound(keys, universe);
}

/// Whether following `arcs` leads from `from` to `to`.
pub fn reachable(arcs: &Vec<Arc>, from: &str, to: &str) -> (found: bool)
    ensures
        found == reaches(arc_views(arcs@), from@, to@),
{
    let ghost a = arc_views(arcs@);
    let ghost universe = met(a, from@);
    let mut pending: Vec<String> = Vec::new();
    pending.push(String::from_str(from));
    let mut seen: IdMap<()> = IdMap::new();
    proof {
        lemma_reaches_self(a, from@);
        assert(pending.deep_view()[0] == from@);
        assert(universe[0].0 == from@);
    }
    while pending.len() > 0
        invariant
            a == arc_views(arcs@),
            universe == met(a, from@),
            forall|i: int| 0 <= i < pending.len() ==> reaches(a, from@, #[trigger] pending.deep_view()[i]),
            forall|i: int| 0 <= i < pending.len() ==> has_key(universe, #[trigger] pending.deep_view()[i]),
            forall|x: Seq<char>| #[trigger] has_key(seen@, x) ==> reaches(a, from@, x) && has_key(universe, x),
            !has_key(seen@, to@),
            forall|k: int| 0 <= k < a.len() && #[trigger] has_key(seen@, a[k].1) ==> has_key(seen@, a[k].2) || pending.deep_view().contains(a[k].2),
            has_key(seen@, from@) || pending.deep_view().contains(from@),
        decreases universe.len() - seen@.len(), pending.len(),
    {
        proof {
            use_type_invariant(&seen);
            lemma_keys_bound(seen@, universe);
        }
        let ghost before = pending.deep_view();
        let id = pending.pop().unwrap();
        proof {
            assert(before == pending.deep_view().push(id@));
            assert(reaches(a, from@, before[before.len() - 1]));
            assert(has_key(universe, before[before.len() - 1]));
            assert forall|i: int| 0 <= i < pending.len() implies reaches(a, from@, #[trigger] pending.deep_view()[i])
                && has_key(universe, pending.deep_view()[i]) by {
                assert(before[i] == pending.deep_view()[i]);
            }
        }
        if str_eq(id.as_str(), to) {
            return true;
        }
        let ghost seen_before = seen@;
        let ghost rest = pending.deep_view();
        let newly = seen.contains_key(id.as_str());
        if !newly {
            seen.insert(id.clone(), ());
            proof {
                lemma_lookup_has_key(seen_before, id@);
                use_type_invariant(&seen);
                assert(has_key(seen@, id@));
                assert(has_key(universe, id@));
            }
            let mut j: usize = 0;
            while j < arcs.len()
                invariant
                    a == arc_views(arcs@),
                    j <= arcs.len(),
                    reaches(a, from@, id@),
                    universe == met(a, from@),
                    forall|i: int| 0 <= i < pending.len() ==> reaches(a, from@, #[trigger] pending.deep_view()[i]),
                    forall|i: int| 0 <= i < pending.len() ==> has_key(universe, #[trigger] pending.deep_view()[i]),
                    forall|k: int| 0 <= k < j && (#[trigger] a[k]).1 == id@ ==> pending.deep_view().contains(a[k].2),
                    forall|x: Seq<char>| rest.contains(x) ==> #[trigger] pending.deep_view().contains(x),
                decreases arcs.len() - j,
            {
                if str_eq(arcs[j].from.as_str(), id.as_str()) {
                    let ghost p0 = pending.deep_view();
                    pending.push(arcs[j].to.clone());
                    proof {
                        assert(a[j as int] == arcs@[j as int]@);
                        lemma_reaches_step(a, from@, j as int);
                        assert(universe[j + 1].0 == a[j as int].2);
                        assert(pending.deep_view() =~= p0.push(a[j as int].2));
                        assert forall|k: int| 0 <= k < j + 1 && (#[trigger] a[k]).1 == id@ implies pending.deep_view().contains(a[k].2) by {
                            if k < j {
                                let m = choose|m: int| 0 <= m < p0.len() && p0[m] == a[k].2;
                                assert(pending.deep_view()[m] == a[k].2);
                            } else {
                                assert(pending.deep_view()[p0.len() as int] == a[k].2);
                            }
                        }
                        assert forall|x: Seq<char>| rest.contains(x) implies #[trigger] pending.deep_view().contains(x) by {
                            assert(p0.contains(x));
                            let m = choose|m: int| 0 <= m < p0.len() && p0[m] == x;
                            assert(pending.deep_view()[m] == x);
                        }
                    }
                }
                j = j + 1;
            }
            proof {
                lemma_keys_bound(seen@, universe);
                assert forall|k: int| 0 <= k < a.len() && #[trigger] has_key(seen@, a[k].1) implies has_key(seen@, a[k].2) || pending.deep_view().contains(a[k].2) by {
                    if a[k].1 != id@ {
                        assert(has_key(seen_before, a[k].1));
                        if !has_key(seen_before, a[k].2) {
                            assert(before.contains(a[k].2));
                            if a[k].2 != id@ {
                                let m = choose|m: int| 0 <= m < before.len() && before[m] == a[k].2;
                                assert(rest[m] == a[k].2);
                            }
                        }
                    }
                }
                if !has_key(seen@, from@) {
                    assert(from@ != id@);
                    let m = choose|m: int| 0 <= m < before.len() && before[m] == from@;
                    assert(rest[m] == from@);
                }
            }
        } else {
            proof {
                assert forall|k: int| 0 <= k < a.len() && #[trigger] has_key(seen@, a[k].1) implies has_key(seen@, a[k].2) || pending.deep_view().contains(a[k].2) by {
                    if !has_key(seen@, a[k].2) {
                        assert(before.contains(a[k].2));
                        let m = choose|m: int| 0 <= m < before.len() && before[m] == a[k].2;
                        assert(a[k].2 != id@);
                        assert(rest[m] == a[k].2);
                    }
                }
                if !has_key(seen@, from@) {
                    let m = choose|m: int| 0 <= m < before.len() && before[m] == from@;
                    assert(rest[m] == from@);
                }
            }
        }
    }
    proof {
        let closed = key_set(seen@);
        assert forall|k: int| 0 <= k < a.len() && closed.contains(#[trigger] a[k].1) implies closed.contains(a[k].2) by {
            assert(has_key(seen@, a[k].1));
        }
        if reaches(a, from@, to@) {
            let p = choose|p: Seq<Seq<char>>| #[trigger] is_walk(a, p) && p[0] == from@ && p.last() == to@;
            lemma_closed_holds_reached(a, closed, p);
        }
    }
    false
}

/// Arc `k` lies on a cycle: its target leads back to its source.
pub open spec fn on_cycle(arcs: Seq<(Seq<char>, Seq<char>, Seq<char>)>, k: int) -> bool {
    reaches(arcs, arcs[k].2, arcs[k].1)
}

/// The position of the last arc before `n` that lies on a cycle.
pub open spec fn last_on_cycle(arcs: Seq<(Seq<char>, Seq<char>, Seq<char>)>, n: int) -> Option<int>
    decreases n,
{
    if n <= 0 {
        None
    } else if on_cycle(arcs, n - 1) {
        Some(n - 1)
    } else {
        last_on_cycle(arcs, n - 1)
    }
}

/// The arcs that do not come from the edge `id`, in order.
pub open spec fn without_edge(arcs: Seq<(Seq<char>, Seq<char>, Seq<char>)>, id: Seq<char>) -> Seq<(Seq<char>, Seq<char>, Seq<char>)>
    decreases arcs.len(),
{
    if arcs.len() == 0 {
        Seq::empty()
    } else {
        without_edge(arcs.drop_last(), id) + if arcs.last().0 == id {
            Seq::empty()
        } else {
            seq![arcs.last()]
        }
    }
}

pub proof fn lemma_last_on_cycle(arcs: Seq<(Seq<char>, Seq<char>, Seq<char>)>, n: int)
    ensures
        last_on_cycle(arcs, n) matches Some(k) ==> 0 <= k < n && on_cycle(arcs, k)
            && forall|j: int| k < j < n ==> !on_cycle(arcs, j),
        last_on_cycle(arcs, n) is None ==> forall|j: int| 0 <= j < n ==> !on_cycle(arcs, j),
    decreases n,
{
    if n > 0 {
        lemma_last_on_cycle(arcs, n - 1);
    }
}

pub proof fn lemma_without_edge_len(arcs: Seq<(Seq<char>, Seq<char>, Seq<char>)>, id: Seq<char>)
    ensures
        without_edge(arcs, id).len() <= arcs.len(),
        (exists|k: int| 0 <= k < arcs.len() && (#[trigger] arcs[k]).0 == id) ==> without_edge(arcs, id).len() < arcs.len(),
    decreases arcs.len(),
{
    if arcs.len() > 0 {
        lemma_without_edge_len(arcs.drop_last(), id);
        if exists|k: int| 0 <= k < arcs.len() && (#[trigger] arcs[k]).0 == id {
            let k = choose|k: int| 0 <= k < arcs.len() && (#[trigger] arcs[k]).0 == id;
            if k < arcs.len() - 1 {
                assert(arcs.drop_last()[k].0 == id);
            }
        }
    }
}

/// Drop the edge of the last arc on a cycle, again and again, until no arc
/// lies on a cycle.
pub open spec fn broken(arcs: Seq<(Seq<char>, Seq<char>, Seq<char>)>) -> Seq<(Seq<char>, Seq<char>, Seq<char>)>
    decreases arcs.len(),
{
    match last_on_cycle(arcs, arcs.len() as int) {
        None => arcs,
        Some(k) => {
            proof {
                lemma_last_on_cycle(arcs, arcs.len() as int);
                lemma_without_edge_len(arcs, arcs[k].0);
            }
            broken(without_edge(arcs, arcs[k].0))
        },
    }
}

/// Remove the edge of the last arc that lies on a cycle, repeatedly, until
/// no arc does. With arcs in edge id order this drops the greatest edge id
/// on a cycle each time.
pub fn break_cycles(arcs: &mut Vec<Arc>)
    ensures
        arc_views(final(arcs)@) == broken(arc_views(old(arcs)@)),
{
    let ghost target = broken(arc_views(arcs@));
    let mut done = false;
    while !done
        invariant
            broken(arc_views(arcs@)) == target,
            done ==> last_on_cycle(arc_views(arcs@), arcs.len() as int) is None,
        decreases arcs.len() + if done { 0int } else { 1int },
    {
        let ghost a = arc_views(arcs@);
        let mut k = arcs.len();
        let mut found: Option<usize> = None;
        while found.is_none() && k > 0
            invariant
                a == arc_views(arcs@),
                k <= arcs.len(),
                found is None ==> last_on_cycle(a, a.len() as int) == last_on_cycle(a, k as int),
                found matches Some(f) ==> f < arcs.len() && last_on_cycle(a, a.len() as int) == Some(f as int),
            decreases k,
        {
            k = k - 1;
            if reachable(arcs, arcs[k].to.as_str(), arcs[k].from.as_str()) {
                proof {
                    assert(a[k as int] == arcs@[k as int]@);
                }
                found = Some(k);
            } else {
                proof {
                    assert(a[k as int] == arcs@[k as int]@);
                }
            }
        }
        match found {
            None => {
                proof {
                    assert(last_on_cycle(a, 0) is None);
                }
                done = true;
            },
            Some(f) => {
                let id = arcs[f].id.clone();
                let mut kept: Vec<Arc> = Vec::new();
                proof {
                    assert(a.take(0) =~= Seq::<(Seq<char>, Seq<char>, Seq<char>)>::empty());
                    assert(arc_views(kept@) =~= without_edge(a.take(0), id@));
                }
                for i in 0..arcs.len()
                    invariant
                        a == arc_views(arcs@),
                        arc_views(kept@) == without_edge(a.take(i as int), id@),
                {
                    let ghost before = arc_views(kept@);
                    proof {
                        assert(a.take(i + 1).drop_last() =~= a.take(i as int));
                        assert(a.take(i + 1).last() == arcs@[i as int]@);
                    }
                    if !str_eq(arcs[i].id.as_str(), id.as_str()) {
                        kept.push(Arc { id: arcs[i].id.clone(), from: arcs[i].from.clone(), to: arcs[i].to.clone() });
                        proof {
                            assert(arc_views(kept@) =~= before + seq![a[i as int]]);
                        }
                    } else {
                        proof {
                            assert(arc_views(kept@) =~= before + Seq::<(Seq<char>, Seq<char>, Seq<char>)>::empty());
                        }
                    }
                }
                proof {
                    assert(a.take(a.len() as int) =~= a);
                    lemma_last_on_cycle(a, a.len() as int);
                    lemma_without_edge_len(a, id@);
                    assert(a[f as int].0 == id@);
                }
                *arcs = kept;
            },
        }
    }
    proof {
        assert(broken(arc_views(arcs@)) == arc_views(arcs@));
    }
}

/// After cycles are broken, no arc lies on a cycle.
pub proof fn law_broken_arcs_lie_on_no_cycle(arcs: Seq<(Seq<char>, Seq<char>, Seq<char>)>)
    ensures
        forall|k: int| 0 <= k < broken(arcs).len() ==> !#[trigger] on_cycle(broken(arcs), k),
    decreases arcs.len(),
{
    lemma_last_on_cycle(arcs, arcs.len() as int);
    match last_on_cycle(arcs, arcs.len() as int) {
        Some(k) => {
            lemma_without_edge_len(arcs, arcs[k].0);
            law_broken_arcs_lie_on_no_cycle(without_edge(arcs, arcs[k].0));
            assert(broken(arcs) == broken(without_edge(arcs, arcs[k].0)));
        },
        None => {
            assert(broken(arcs) == arcs);
        },
    }
}

proof fn lemma_without_edge_subset(arcs: Seq<(Seq<char>, Seq<char>, Seq<char>)>, id: Seq<char>)
    ensures
        forall|k: int| 0 <= k < without_edge(arcs, id).len() ==> arcs.contains(#[trigger] without_edge(arcs, id)[k]),
    decreases arcs.len(),
{
    if arcs.len() > 0 {
        lemma_without_edge_subset(arcs.drop_last(), id);
        let w = without_edge(arcs, id);
        let p = without_edge(arcs.drop_last(), id);
        assert forall|k: int| 0 <= k < w.len() implies arcs.contains(#[trigger] w[k]) by {
            if k < p.len() {
                assert(w[k] == p[k]);
                assert(arcs.drop_last().contains(p[k]));
                let j = choose|j: int| 0 <= j < arcs.drop_last().len() && arcs.drop_last()[j] == p[k];
                assert(arcs[j] == w[k]);
            } else {
                assert(w[k] == arcs.last());
                assert(arcs[arcs.len() - 1] == w[k]);
            }
        }
    }
}

/// Breaking cycles only removes arcs.
pub proof fn lemma_broken_subset(arcs: Seq<(Seq<char>, Seq<char>, Seq<char>)>)
    ensures
        forall|k: int| 0 <= k < broken(arcs).len() ==> arcs.contains(#[trigger] broken(arcs)[k]),
    decreases arcs.len(),
{
    lemma_last_on_cycle(arcs, arcs.len() as int);
    if let Some(k) = last_on_cycle(arcs, arcs.len() as int) {
        let w = without_edge(arcs, arcs[k].0);
        lemma_without_edge_len(arcs, arcs[k].0);
        lemma_broken_subset(w);
        lemma_without_edge_subset(arcs, arcs[k].0);
        assert forall|j: int| 0 <= j < broken(arcs).len() implies arcs.contains(#[trigger] broken(arcs)[j]) by {
            assert(w.contains(broken(w)[j]));
            let m = choose|m: int| 0 <= m < w.len() && w[m] == broken(w)[j];
            assert(arcs.contains(w[m]));
        }
    }
}

/// The arcs whose edge id is not in `ids`, in order.
pub open spec fn without_edges(arcs: Seq<(Seq<char>, Seq<char>, Seq<char>)>, ids: Set<Seq<char>>) -> Seq<(Seq<char>, Seq<char>, Seq<char>)>
    decreases arcs.len(),
{
    if arcs.len() == 0 {
        Seq::empty()
    } else {
        without_edges(arcs.drop_last(), ids) + if ids.contains(arcs.last().0) {
            Seq::empty()
        } else {
            seq![arcs.last()]
        }
    }
}

/// The edge ids that breaking cycles drops, one per round.
pub open spec fn dropped_edges(arcs: Seq<(Seq<char>, Seq<char>, Seq<char>)>) -> Set<Seq<char>>
    decreases arcs.len(),
{
    match last_on_cycle(arcs, arcs.len() as int) {
        None => Set::empty(),
        Some(k) => {
            proof {
                lemma_last_on_cycle(arcs, arcs.len() as int);
                lemma_without_edge_len(arcs, arcs[k].0);
            }
            dropped_edges(without_edge(arcs, arcs[k].0)).insert(arcs[k].0)
        },
    }
}

proof fn lemma_without_one_edge(arcs: Seq<(Seq<char>, Seq<char>, Seq<char>)>, id: Seq<char>)
    ensures
        without_edge(arcs, id) == without_edges(arcs, set![id]),
    decreases arcs.len(),
{
    if arcs.len() > 0 {
        lemma_without_one_edge(arcs.drop_last(), id);
    }
}

proof fn lemma_without_edges_twice(
    arcs: Seq<(Seq<char>, Seq<char>, Seq<char>)>,
    first: Set<Seq<char>>,
    then: Set<Seq<char>>,
)
    ensures
        without_edges(without_edges(arcs, first), then) == without_edges(arcs, first.union(then)),
    decreases arcs.len(),
{
    if arcs.len() > 0 {
        let rest = arcs.drop_last();
        let x = arcs.last();
        lemma_without_edges_twice(rest, first, then);
        let w = without_edges(rest, first);
        if first.contains(x.0) {
            assert(without_edges(arcs, first) =~= w);
            assert(without_edges(arcs, first.union(then)) =~= without_edges(rest, first.union(then)));
        } else {
            let ws = without_edges(arcs, first);
            assert(ws =~= w.push(x));
            assert(ws.drop_last() =~= w);
            assert(ws.last() == x);
            if then.contains(x.0) {
                assert(without_edges(ws, then) =~= without_edges(w, then));
                assert(without_edges(arcs, first.union(then)) =~= without_edges(rest, first.union(then)));
            } else {
                assert(without_edges(ws, then) =~= without_edges(w, then).push(x));
                assert(without_edges(arcs, first.union(then)) =~= without_edges(rest, first.union(then)).push(x));
            }
        }
    }
}

proof fn lemma_dropped_edges_occur(arcs: Seq<(Seq<char>, Seq<char>, Seq<char>)>)
    ensures
        forall|id: Seq<char>| #[trigger] dropped_edges(arcs).contains(id) ==> exists|i: int| 0 <= i < arcs.len() && (#[trigger] arcs[i]).0 == id,
    decreases arcs.len(),
{
    lemma_last_on_cycle(arcs, arcs.len() as int);
    if let Some(k) = last_on_cycle(arcs, arcs.len() as int) {
        let w = without_edge(arcs, arcs[k].0);
        lemma_without_edge_len(arcs, arcs[k].0);
        lemma_dropped_edges_occur(w);
        lemma_without_edge_subset(arcs, arcs[k].0);
        assert forall|id: Seq<char>| #[trigger] dropped_edges(arcs).contains(id) implies exists|i: int| 0 <= i < arcs.len() && (#[trigger] arcs[i]).0 == id by {
            if id == arcs[k].0 {
                assert(arcs[k].0 == id);
            } else {
                assert(dropped_edges(w).contains(id));
                let m = choose|m: int| 0 <= m < w.len() && (#[trigger] w[m]).0 == id;
                assert(arcs.contains(w[m]));
                let i = choose|i: int| 0 <= i < arcs.len() && arcs[i] == w[m];
                assert(arcs[i].0 == id);
            }
        }
    }
}

/// Breaking cycles drops whole edges and keeps the order: what remains is
/// exactly the arcs whose edge id is not among the dropped ids, in their
/// order, so each edge keeps all of its arcs or none; every dropped id is the
/// id of some arc.
pub proof fn law_breaking_cycles_drops_whole_edges(arcs: Seq<(Seq<char>, Seq<char>, Seq<char>)>)
    ensures
        broken(arcs) == without_edges(arcs, dropped_edges(arcs)),
        forall|id: Seq<char>| #[trigger] dropped_edges(arcs).contains(id) ==> exists|i: int| 0 <= i < arcs.len() && (#[trigger] arcs[i]).0 == id,
    decreases arcs.len(),
{
    lemma_dropped_edges_occur(arcs);
    lemma_last_on_cycle(arcs, arcs.len() as int);
    match last_on_cycle(arcs, arcs.len() as int) {
        None => {
            lemma_without_no_edges(arcs);
        },
        Some(k) => {
            let id = arcs[k].0;
            let w = without_edge(arcs, id);
            lemma_without_edge_len(arcs, id);
            law_breaking_cycles_drops_whole_edges(w);
            lemma_without_one_edge(arcs, id);
            lemma_without_edges_twice(arcs, set![id], dropped_edges(w));
            assert(set![id].union(dropped_edges(w)) =~= dropped_edges(arcs));
        },
    }
}

proof fn lemma_without_no_edges(arcs: Seq<(Seq<char>, Seq<char>, Seq<char>)>)
    ensures
        without_edges(arcs, Set::empty()) == arcs,
    decreases arcs.len(),
{
    if arcs.len() > 0 {
        lemma_without_no_edges(arcs.drop_last());
        assert(arcs.drop_last().push(arcs.last()) =~= arcs);
    }
}

// ---------------------------------------------------------------------------
// Ranks

/// The most arcs on a walk that ends at `v` and has at most `n` arcs.
pub open spec fn depth(arcs: Seq<(Seq<char>, Seq<char>, Seq<char>)>, v: Seq<char>, n: nat) -> nat
    decreases n, 0nat,
{
    if n == 0 {
        0
    } else {
        longest_into(arcs, v, (n - 1) as nat, arcs.len())
    }
}

/// The most arcs on a walk of at most `n + 1` arcs whose last arc is one of
/// the first `m` arcs and leads to `v`; zero when there is none.
pub open spec fn longest_into(arcs: Seq<(Seq<char>, Seq<char>, Seq<char>)>, v: Seq<char>, n: nat, m: nat) -> nat
    decreases n, m + 1,
{
    if m == 0 {
        0
    } else {
        let rest = longest_into(arcs, v, n, (m - 1) as nat);
        if m <= arcs.len() && arcs[m - 1].2 == v {
            let through = depth(arcs, arcs[m - 1].1, n) + 1;
            if through > rest {
                through
            } else {
                rest
            }
        } else {
            rest
        }
    }
}

/// The ids in `ids` whose rank is `k`, in order.
pub open spec fn with_rank(ids: Seq<Seq<char>>, arcs: Seq<(Seq<char>, Seq<char>, Seq<char>)>, n: nat, k: nat) -> Seq<Seq<char>>
    decreases ids.len(),
{
    if ids.len() == 0 {
        Seq::empty()
    } else {
        with_rank(ids.drop_last(), arcs, n, k) + if depth(arcs, ids.last(), n) == k {
            seq![ids.last()]
        } else {
            Seq::empty()
        }
    }
}

/// The greatest rank among `ids`.
pub open spec fn top_rank(ids: Seq<Seq<char>>, arcs: Seq<(Seq<char>, Seq<char>, Seq<char>)>, n: nat) -> nat
    decreases ids.len(),
{
    if ids.len() == 0 {
        0
    } else {
        let rest = top_rank(ids.drop_last(), arcs, n);
        let r = depth(arcs, ids.last(), n);
        if r > rest {
            r
        } else {
            rest
        }
    }
}

/// Vertices grouped by rank, the rank of a vertex being the most arcs on a
/// walk that ends at it; each group in vertex order.
pub open spec fn ranked(ids: Seq<Seq<char>>, arcs: Seq<(Seq<char>, Seq<char>, Seq<char>)>) -> Seq<Seq<Seq<char>>> {
    if ids.len() == 0 {
        Seq::empty()
    } else {
        Seq::new(top_rank(ids, arcs, ids.len()) + 1, |k: int| with_rank(ids, arcs, ids.len(), k as nat))
    }
}

proof fn lemma_longest_into_at_least(arcs: Seq<(Seq<char>, Seq<char>, Seq<char>)>, v: Seq<char>, n: nat, m: nat, k: int)
    requires
        0 <= k < m <= arcs.len(),
        arcs[k].2 == v,
    ensures
        longest_into(arcs, v, n, m) >= depth(arcs, arcs[k].1, n) + 1,
    decreases m,
{
    if k < m - 1 {
        lemma_longest_into_at_least(arcs, v, n, (m - 1) as nat, k);
    }
}

proof fn lemma_longest_into_at_most(arcs: Seq<(Seq<char>, Seq<char>, Seq<char>)>, v: Seq<char>, n: nat, m: nat, bound: int)
    requires
        m <= arcs.len(),
        bound >= 0,
        forall|k: int| 0 <= k < m && (#[trigger] arcs[k]).2 == v ==> depth(arcs, arcs[k].1, n) + 1 <= bound,
    ensures
        longest_into(arcs, v, n, m) <= bound,
    decreases m,
{
    if m > 0 {
        lemma_longest_into_at_most(arcs, v, n, (m - 1) as nat, bound);
        if arcs[m - 1].2 == v {
            assert(depth(arcs, arcs[m - 1].1, n) + 1 <= bound);
        }
    }
}

proof fn lemma_longest_into_monotone(arcs: Seq<(Seq<char>, Seq<char>, Seq<char>)>, v: Seq<char>, n: nat, m: nat)
    requires
        m <= arcs.len(),
        forall|u: Seq<char>| #[trigger] depth(arcs, u, n) <= depth(arcs, u, n + 1),
    ensures
        longest_into(arcs, v, n, m) <= longest_into(arcs, v, n + 1, m),
    decreases m,
{
    if m > 0 {
        lemma_longest_into_monotone(arcs, v, n, (m - 1) as nat);
        assert(depth(arcs, arcs[m - 1].1, n) <= depth(arcs, arcs[m - 1].1, n + 1));
    }
}

/// Allowing more arcs never lowers a depth.
proof fn lemma_depth_step(arcs: Seq<(Seq<char>, Seq<char>, Seq<char>)>, n: nat)
    ensures
        forall|u: Seq<char>| #[trigger] depth(arcs, u, n) <= depth(arcs, u, n + 1),
    decreases n,
{
    if n > 0 {
        lemma_depth_step(arcs, (n - 1) as nat);
        assert forall|u: Seq<char>| #[trigger] depth(arcs, u, n) <= depth(arcs, u, n + 1) by {
            lemma_longest_into_monotone(arcs, u, (n - 1) as nat, arcs.len());
        }
    }
}

proof fn lemma_depth_monotone(arcs: Seq<(Seq<char>, Seq<char>, Seq<char>)>, v: Seq<char>, a: nat, b: nat)
    requires
        a <= b,
    ensures
        depth(arcs, v, a) <= depth(arcs, v, b),
    decreases b - a,
{
    if a < b {
        lemma_depth_monotone(arcs, v, a, (b - 1) as nat);
        lemma_depth_step(arcs, (b - 1) as nat);
    }
}

/// A walk of `m` arcs ending at `v` shows that `v` has depth at least `m`.
proof fn lemma_walk_depth(arcs: Seq<(Seq<char>, Seq<char>, Seq<char>)>, p: Seq<Seq<char>>)
    requires
        is_walk(arcs, p),
    ensures
        depth(arcs, p.last(), (p.len() - 1) as nat) >= p.len() - 1,
    decreases p.len(),
{
    if p.len() > 1 {
        let q = p.drop_last();
        assert forall|i: int| 0 <= i < q.len() - 1 implies #[trigger] has_arc(arcs, q[i], q[i + 1]) by {
            assert(has_arc(arcs, p[i], p[i + 1]));
        }
        lemma_walk_depth(arcs, q);
        let i = p.len() - 2;
        assert(has_arc(arcs, p[i], p[i + 1]));
        let k = choose|k: int| 0 <= k < arcs.len() && (#[trigger] arcs[k]).1 == p[i] && arcs[k].2 == p[i + 1];
        assert(q.last() == arcs[k].1);
        lemma_longest_into_at_least(arcs, p.last(), (p.len() - 2) as nat, arcs.len(), k);
    }
}

/// Every vertex of a walk of two or more vertices is an endpoint of an arc.
pub open spec fn endpoints_in(arcs: Seq<(Seq<char>, Seq<char>, Seq<char>)>, ids: Set<Seq<char>>) -> bool {
    forall|k: int| 0 <= k < arcs.len() ==> ids.contains((#[trigger] arcs[k]).1) && ids.contains(arcs[k].2)
}

/// Where no arc lies on a cycle, a walk never repeats a vertex.
proof fn lemma_walk_distinct(arcs: Seq<(Seq<char>, Seq<char>, Seq<char>)>, p: Seq<Seq<char>>)
    requires
        is_walk(arcs, p),
        forall|k: int| 0 <= k < arcs.len() ==> !#[trigger] on_cycle(arcs, k),
    ensures
        p.no_duplicates(),
{
    assert forall|i: int, j: int| 0 <= i < p.len() && 0 <= j < p.len() && i != j implies p[i] != p[j] by {
        let (lo, hi) = if i < j { (i, j) } else { (j, i) };
        if p[lo] == p[hi] {
            assert(has_arc(arcs, p[lo], p[lo + 1]));
            let k = choose|k: int| 0 <= k < arcs.len() && (#[trigger] arcs[k]).1 == p[lo] && arcs[k].2 == p[lo + 1];
            let q = p.subrange(lo + 1, hi + 1);
            assert forall|t: int| 0 <= t < q.len() - 1 implies #[trigger] has_arc(arcs, q[t], q[t + 1]) by {
                assert(q[t] == p[lo + 1 + t] && q[t + 1] == p[lo + 1 + t + 1]);
                assert(has_arc(arcs, p[lo + 1 + t], p[lo + 1 + t + 1]));
            }
            assert(is_walk(arcs, q));
            assert(q[0] == arcs[k].2 && q.last() == arcs[k].1);
            assert(on_cycle(arcs, k));
        }
    }
}

/// Where no arc lies on a cycle and every arc joins two of the `ids`, a
/// walk has no more vertices than there are ids.
proof fn lemma_walk_bound(arcs: Seq<(Seq<char>, Seq<char>, Seq<char>)>, ids: Seq<Seq<char>>, p: Seq<Seq<char>>)
    requires
        is_walk(arcs, p),
        forall|k: int| 0 <= k < arcs.len() ==> !#[trigger] on_cycle(arcs, k),
        endpoints_in(arcs, ids.to_set()),
        ids.to_set().contains(p.last()),
    ensures
        p.len() <= ids.len(),
{
    lemma_walk_distinct(arcs, p);
    if p.len() > 1 {
        assert(has_arc(arcs, p[0], p[0int + 1]));
        let k = choose|k: int| 0 <= k < arcs.len() && (#[trigger] arcs[k]).1 == p[0] && arcs[k].2 == p[0int + 1];
        assert(ids.to_set().contains(arcs[k].1));
    }
    let pairs = ids.map_values(|x: Seq<char>| (x, ()));
    assert forall|j: int| 0 <= j < p.len() implies has_key(pairs, #[trigger] p[j]) by {
        let x = p[j];
        if j > 0 {
            assert(has_arc(arcs, p[j - 1], p[j - 1 + 1]));
            let k = choose|k: int| 0 <= k < arcs.len() && (#[trigger] arcs[k]).1 == p[j - 1] && arcs[k].2 == p[j - 1 + 1];
            assert(ids.to_set().contains(arcs[k].2));
        }
        assert(ids.to_set().contains(x));
        let m = choose|m: int| 0 <= m < ids.len() && ids[m] == x;
        assert(pairs[m].0 == x);
    }
    crate::validation::lemma_distinct_keys_bound(p, pairs);
}

/// The ids of the vertices, in order.
pub open spec fn vertex_ids(vs: Seq<(Seq<char>, Seq<Seq<char>>)>) -> Seq<Seq<char>> {
    vs.map_values(|v: (Seq<char>, Seq<Seq<char>>)| v.0)
}

/// Some walk of `m` arcs ends at `v`.
pub open spec fn realized(arcs: Seq<(Seq<char>, Seq<char>, Seq<char>)>, v: Seq<char>, m: nat) -> bool {
    exists|p: Seq<Seq<char>>| #[trigger] is_walk(arcs, p) && p.last() == v && p.len() == m + 1
}

/// Group the vertices by rank, a vertex's rank being the most arcs on a walk
/// that ends at it; each group keeps vertex order. The arcs must join
/// vertices and lie on no cycle.
pub fn assign_layers(vertices: &Vec<Vertex>, arcs: &Vec<Arc>) -> (layers: Vec<Vec<String>>)
    requires
        strictly_increasing(vertex_ids(vertex_views(vertices@))),
        endpoints_in(arc_views(arcs@), vertex_ids(vertex_views(vertices@)).to_set()),
        forall|k: int| 0 <= k < arcs.len() ==> !#[trigger] on_cycle(arc_views(arcs@), k),
    ensures
        layers.deep_view() == ranked(vertex_ids(vertex_views(vertices@)), arc_views(arcs@)),
{
    let ghost ids = vertex_ids(vertex_views(vertices@));
    let ghost a = arc_views(arcs@);
    let n = vertices.len();
    if n == 0 {
        let empty: Vec<Vec<String>> = Vec::new();
        proof {
            assert(empty.deep_view() =~= ranked(ids, a));
        }
        return empty;
    }
    // Each vertex id's position.
    let mut index: IdMap<usize> = IdMap::new();
    for i in 0..n
        invariant
            n == vertices.len(),
            ids == vertex_ids(vertex_views(vertices@)),
            forall|x: Seq<char>| #[trigger] lookup(index@, x) matches Some(p) ==> p < i && ids[p as int] == x,
            forall|j: int| 0 <= j < i ==> #[trigger] lookup(index@, ids[j]) is Some,
    {
        proof {
            assert(ids[i as int] == vertices@[i as int].id@);
        }
        index.insert(vertices[i].id.clone(), i);
    }
    // Each arc as a pair of positions.
    let mut ends: Vec<(usize, usize)> = Vec::new();
    for k in 0..arcs.len()
        invariant
            n == vertices.len(),
            ids == vertex_ids(vertex_views(vertices@)),
            a == arc_views(arcs@),
            endpoints_in(a, ids.to_set()),
            forall|x: Seq<char>| #[trigger] lookup(index@, x) matches Some(p) ==> p < n && ids[p as int] == x,
            forall|j: int| 0 <= j < n ==> #[trigger] lookup(index@, ids[j]) is Some,
            ends.len() == k,
            forall|j: int| 0 <= j < k ==> (#[trigger] ends@[j]).0 < n && ends@[j].1 < n && ids[ends@[j].0 as int] == a[j].1
                && ids[ends@[j].1 as int] == a[j].2,
    {
        proof {
            assert(a[k as int] == arcs@[k as int]@);
            assert(ids.to_set().contains(a[k as int].1) && ids.to_set().contains(a[k as int].2));
            let jf = choose|j: int| 0 <= j < ids.len() && ids[j] == a[k as int].1;
            let jt = choose|j: int| 0 <= j < ids.len() && ids[j] == a[k as int].2;
            assert(lookup(index@, ids[jf]) is Some);
            assert(lookup(index@, ids[jt]) is Some);
        }
        let from = index.get(arcs[k].from.as_str()).unwrap();
        let to = index.get(arcs[k].to.as_str()).unwrap();
        ends.push((from, to));
    }
    // Relax every arc once per vertex: ranks only grow, and each rank is
    // the length of some walk.
    let mut rank: Vec<usize> = Vec::new();
    for i in 0..n
        invariant
            rank.len() == i,
            forall|j: int| 0 <= j < i ==> rank@[j] == 0,
    {
        rank.push(0);
    }
    proof {
        assert forall|i: int| 0 <= i < n implies #[trigger] realized(a, ids[i], rank@[i] as nat) by {
            assert(is_walk(a, seq![ids[i]]));
        }
    }
    let mut round: usize = 0;
    while round < n
        invariant
            n == vertices.len(),
            ids == vertex_ids(vertex_views(vertices@)),
            ids.len() == n,
            strictly_increasing(ids),
            a == arc_views(arcs@),
            endpoints_in(a, ids.to_set()),
            forall|k: int| 0 <= k < a.len() ==> !#[trigger] on_cycle(a, k),
            ends.len() == a.len(),
            forall|j: int| 0 <= j < a.len() ==> (#[trigger] ends@[j]).0 < n && ends@[j].1 < n && ids[ends@[j].0 as int] == a[j].1
                && ids[ends@[j].1 as int] == a[j].2,
            round <= n,
            rank.len() == n,
            forall|i: int| 0 <= i < n ==> #[trigger] realized(a, ids[i], rank@[i] as nat),
            forall|i: int| 0 <= i < n ==> rank@[i] >= depth(a, #[trigger] ids[i], round as nat),
        decreases n - round,
    {
        let ghost rank0 = rank@;
        let mut j: usize = 0;
        while j < ends.len()
            invariant
                n == vertices.len(),
                ids.len() == n,
                a == arc_views(arcs@),
                endpoints_in(a, ids.to_set()),
                forall|k: int| 0 <= k < a.len() ==> !#[trigger] on_cycle(a, k),
                ends.len() == a.len(),
                forall|j: int| 0 <= j < a.len() ==> (#[trigger] ends@[j]).0 < n && ends@[j].1 < n && ids[ends@[j].0 as int] == a[j].1
                    && ids[ends@[j].1 as int] == a[j].2,
                j <= ends.len(),
                rank.len() == n,
                forall|i: int| 0 <= i < n ==> #[trigger] realized(a, ids[i], rank@[i] as nat),
                forall|i: int| 0 <= i < n ==> #[trigger] rank@[i] >= rank0[i],
                forall|t: int| 0 <= t < j ==> rank@[(#[trigger] ends@[t]).1 as int] >= rank0[ends@[t].0 as int] + 1,
            decreases ends.len() - j,
        {
            let (u, v) = ends[j];
            proof {
                assert(realized(a, ids[u as int], rank@[u as int] as nat));
                let p = choose|p: Seq<Seq<char>>| #[trigger] is_walk(a, p) && p.last() == ids[u as int] && p.len() == rank@[u as int] + 1;
                assert(ids.to_set().contains(ids[u as int]));
                lemma_walk_bound(a, ids, p);
            }
            if rank[v] < rank[u] + 1 {
                let ghost before = rank@;
                let r = rank[u] + 1;
                rank.set(v, r);
                proof {
                    let p = choose|p: Seq<Seq<char>>| #[trigger] is_walk(a, p) && p.last() == ids[u as int] && p.len() == before[u as int] + 1;
                    let q = p.push(ids[v as int]);
                    assert forall|t: int| 0 <= t < q.len() - 1 implies #[trigger] has_arc(a, q[t], q[t + 1]) by {
                        if t < p.len() - 1 {
                            assert(q[t] == p[t] && q[t + 1] == p[t + 1]);
                            assert(has_arc(a, p[t], p[t + 1]));
                        } else {
                            assert(a[j as int].1 == q[t] && a[j as int].2 == q[t + 1]);
                        }
                    }
                    assert(is_walk(a, q));
                    assert(realized(a, ids[v as int], rank@[v as int] as nat));
                    assert forall|i: int| 0 <= i < n implies #[trigger] realized(a, ids[i], rank@[i] as nat) by {
                        if i != v {
                            assert(rank@[i] == before[i]);
                        }
                    }
                }
            }
            j = j + 1;
        }
        proof {
            assert forall|i: int| 0 <= i < n implies rank@[i] >= depth(a, #[trigger] ids[i], (round + 1) as nat) by {
                assert forall|k: int| 0 <= k < a.len() && (#[trigger] a[k]).2 == ids[i] implies depth(a, a[k].1, round as nat) + 1 <= rank@[i] by {
                    let e = ends@[k];
                    assert(ids[e.1 as int] == ids[i]);
                    if e.1 as int != i {
                        if (e.1 as int) < i {
                            assert(crate::text::lex_lt(ids[e.1 as int], ids[i]));
                        } else {
                            assert(crate::text::lex_lt(ids[i], ids[e.1 as int]));
                        }
                        crate::text::lemma_lex_irreflexive(ids[i]);
                    }
                    assert(rank@[i] >= rank0[e.0 as int] + 1);
                    assert(rank0[e.0 as int] >= depth(a, ids[e.0 as int], round as nat));
                }
                lemma_longest_into_at_most(a, ids[i], round as nat, a.len(), rank@[i] as int);
            }
        }
        round = round + 1;
    }
    // Now every rank is the depth with as many arcs as vertices.
    proof {
        assert forall|i: int| 0 <= i < n implies rank@[i] == depth(a, #[trigger] ids[i], n as nat) && rank@[i] < n by {
            assert(realized(a, ids[i], rank@[i] as nat));
            let p = choose|p: Seq<Seq<char>>| #[trigger] is_walk(a, p) && p.last() == ids[i] && p.len() == rank@[i] + 1;
            assert(ids.to_set().contains(ids[i]));
            lemma_walk_bound(a, ids, p);
            lemma_walk_depth(a, p);
            lemma_depth_monotone(a, ids[i], rank@[i] as nat, n as nat);
        }
    }
    let mut top: usize = 0;
    for i in 0..n
        invariant
            ids.len() == n,
            rank.len() == n,
            forall|i: int| 0 <= i < n ==> rank@[i] == depth(a, #[trigger] ids[i], n as nat) && rank@[i] < n,
            top == top_rank(ids.take(i as int), a, n as nat),
            top < n,
    {
        proof {
            assert(ids.take(i + 1).drop_last() =~= ids.take(i as int));
            assert(ids.take(i + 1).last() == ids[i as int]);
        }
        if rank[i] > top {
            top = rank[i];
        }
    }
    proof {
        assert(ids.take(n as int) =~= ids);
    }
    let mut layers: Vec<Vec<String>> = Vec::new();
    let mut k: usize = 0;
    while k <= top
        invariant
            ids.len() == n,
            ids == vertex_ids(vertex_views(vertices@)),
            rank.len() == n,
            forall|i: int| 0 <= i < n ==> rank@[i] == depth(a, #[trigger] ids[i], n as nat),
            top == top_rank(ids, a, n as nat),
            top < n,
            k <= top + 1,
            layers.len() == k,
            forall|t: int| 0 <= t < k ==> #[trigger] layers.deep_view()[t] == with_rank(ids, a, n as nat, t as nat),
        decreases top + 1 - k,
    {
        let mut layer: Vec<String> = Vec::new();
        for i in 0..n
            invariant
                ids.len() == n,
                ids == vertex_ids(vertex_views(vertices@)),
                rank.len() == n,
                forall|i: int| 0 <= i < n ==> rank@[i] == depth(a, #[trigger] ids[i], n as nat),
                layer.deep_view() == with_rank(ids.take(i as int), a, n as nat, k as nat),
        {
            proof {
                assert(ids.take(i + 1).drop_last() =~= ids.take(i as int));
                assert(ids.take(i + 1).last() == ids[i as int]);
                assert(ids[i as int] == vertices@[i as int].id@);
            }
            let ghost before = layer.deep_view();
            if rank[i] == k {
                layer.push(vertices[i].id.clone());
                proof {
                    assert(layer.deep_view() =~= before + seq![ids[i as int]]);
                }
            } else {
                proof {
                    assert(layer.deep_view() =~= before + Seq::<Seq<char>>::empty());
                }
            }
        }
        proof {
            assert(ids.take(n as int) =~= ids);
        }
        let ghost before = layers.deep_view();
        layers.push(layer);
        proof {
            assert(layers.deep_view() =~= before.push(with_rank(ids, a, n as nat, k as nat)));
        }
        k = k + 1;
    }
    proof {
        assert(layers.deep_view() =~= ranked(ids, a));
    }
    layers
}

// ---------------------------------------------------------------------------
// What a valid design guarantees the layout

/// No two entries share a key.
pub open spec fn distinct_keys<V>(s: Seq<(Seq<char>, V)>) -> bool {
    forall|i: int, j: int| 0 <= i < s.len() && 0 <= j < s.len() && i != j ==> (#[trigger] s[i]).0 != (#[trigger] s[j]).0
}

proof fn lemma_id_problems_distinct(e: Seq<(Seq<char>, crate::validation::ElementKind)>)
    requires
        crate::validation::id_problems(e).len() == 0,
    ensures
        distinct_keys(e),
    decreases e.len(),
{
    if e.len() > 0 {
        let before = e.drop_last();
        lemma_id_problems_distinct(before);
        assert(!has_key(before, e.last().0));
        assert forall|i: int, j: int| 0 <= i < e.len() && 0 <= j < e.len() && i != j implies (#[trigger] e[i]).0 != (#[trigger] e[j]).0 by {
            if i == e.len() - 1 {
                assert(before[j] == e[j]);
            } else if j == e.len() - 1 {
                assert(before[i] == e[i]);
            } else {
                assert(before[i] == e[i] && before[j] == e[j]);
            }
        }
    }
}

/// With distinct keys, a lookup finds the one entry with the key.
pub proof fn lemma_lookup_distinct<V>(s: Seq<(Seq<char>, V)>, i: int)
    requires
        distinct_keys(s),
        0 <= i < s.len(),
    ensures
        lookup(s, s[i].0) == Some(s[i].1),
    decreases s.len(),
{
    if i < s.len() - 1 {
        assert(s[s.len() - 1].0 != s[i].0);
        assert(s.drop_last()[i] == s[i]);
        assert(distinct_keys(s.drop_last())) by {
            assert forall|a: int, b: int| 0 <= a < s.drop_last().len() && 0 <= b < s.drop_last().len() && a != b implies
                (#[trigger] s.drop_last()[a]).0 != (#[trigger] s.drop_last()[b]).0 by {
                assert(s.drop_last()[a] == s[a] && s.drop_last()[b] == s[b]);
            }
        }
        lemma_lookup_distinct(s.drop_last(), i);
    }
}

proof fn lemma_membership_clean(e: Seq<(Seq<char>, crate::validation::ElementKind)>, nodes: Seq<NodeView>, i: int)
    requires
        crate::validation::membership_problems(e, nodes).len() == 0,
        0 <= i < nodes.len(),
    ensures
        nodes[i].container matches Some(t) ==> lookup(e, t) == Some(crate::validation::ElementKind::Container),
    decreases nodes.len(),
{
    if i < nodes.len() - 1 {
        assert(nodes.drop_last()[i] == nodes[i]);
        lemma_membership_clean(e, nodes.drop_last(), i);
    } else if let Some(t) = nodes[i].container {
        if let Some(kind) = lookup(e, t) {
            if kind != crate::validation::ElementKind::Container {
                assert(!crate::validation::container_kinds().contains(kind));
            }
        }
    }
}

proof fn lemma_parents_clean(e: Seq<(Seq<char>, crate::validation::ElementKind)>, containers: Seq<ContainerView>, i: int)
    requires
        crate::validation::parent_problems(e, containers).len() == 0,
        0 <= i < containers.len(),
    ensures
        containers[i].parent matches Some(t) ==> lookup(e, t) == Some(crate::validation::ElementKind::Container),
    decreases containers.len(),
{
    if i < containers.len() - 1 {
        assert(containers.drop_last()[i] == containers[i]);
        lemma_parents_clean(e, containers.drop_last(), i);
    } else if let Some(t) = containers[i].parent {
        if let Some(kind) = lookup(e, t) {
            if kind != crate::validation::ElementKind::Container {
                assert(!crate::validation::container_kinds().contains(kind));
            }
        }
    }
}

/// A node or container id.
pub open spec fn placeable(e: Seq<(Seq<char>, crate::validation::ElementKind)>, x: Seq<char>) -> bool {
    lookup(e, x) == Some(crate::validation::ElementKind::Node) || lookup(e, x) == Some(crate::validation::ElementKind::Container)
}

proof fn lemma_edges_clean(e: Seq<(Seq<char>, crate::validation::ElementKind)>, edges: Seq<crate::model::EdgeView>, i: int)
    requires
        crate::validation::edge_problems(e, edges).len() == 0,
        0 <= i < edges.len(),
    ensures
        placeable(e, edges[i].from),
        placeable(e, edges[i].to),
    decreases edges.len(),
{
    if i < edges.len() - 1 {
        assert(edges.drop_last()[i] == edges[i]);
        lemma_edges_clean(e, edges.drop_last(), i);
    } else {
        let ks = crate::validation::endpoint_kinds();
        if let Some(kind) = lookup(e, edges[i].from) {
            if !placeable(e, edges[i].from) {
                assert(!ks.contains(kind)) by {
                    if ks.contains(kind) {
                        let j = choose|j: int| 0 <= j < ks.len() && ks[j] == kind;
                    }
                }
            }
        }
        if let Some(kind) = lookup(e, edges[i].to) {
            if !placeable(e, edges[i].to) {
                assert(!ks.contains(kind)) by {
                    if ks.contains(kind) {
                        let j = choose|j: int| 0 <= j < ks.len() && ks[j] == kind;
                    }
                }
            }
        }
    }
}

/// What the layout needs of a design: distinct ids, containment links that
/// name containers and form no cycle, and edges between nodes and containers.
pub open spec fn well_formed(d: DesignView) -> bool {
    &&& distinct_keys(crate::validation::element_entries(d))
    &&& forall|i: int| 0 <= i < d.nodes.len() ==> ((#[trigger] d.nodes[i]).container matches Some(t)
        ==> lookup(crate::validation::element_entries(d), t) == Some(crate::validation::ElementKind::Container))
    &&& forall|i: int| 0 <= i < d.containers.len() ==> ((#[trigger] d.containers[i]).parent matches Some(t)
        ==> lookup(crate::validation::element_entries(d), t) == Some(crate::validation::ElementKind::Container))
    &&& forall|i: int| 0 <= i < d.edges.len() ==> placeable(crate::validation::element_entries(d), (#[trigger] d.edges[i]).from)
        && placeable(crate::validation::element_entries(d), d.edges[i].to)
    &&& acyclic(parent_pairs(d.containers))
}

/// A valid design is well formed for the layout.
pub proof fn lemma_valid_well_formed(d: DesignView)
    requires
        crate::validation::spec_is_valid(d),
    ensures
        well_formed(d),
{
    lemma_valid_structure(d);
    crate::ancestry::law_valid_design_is_acyclic(d);
}

/// A valid design's ids are distinct, its containment links name
/// containers, and its edges join nodes and containers.
proof fn lemma_valid_structure(d: DesignView)
    requires
        crate::validation::spec_is_valid(d),
    ensures
        distinct_keys(crate::validation::element_entries(d)),
        forall|i: int| 0 <= i < d.nodes.len() ==> ((#[trigger] d.nodes[i]).container matches Some(t)
            ==> lookup(crate::validation::element_entries(d), t) == Some(crate::validation::ElementKind::Container)),
        forall|i: int| 0 <= i < d.containers.len() ==> ((#[trigger] d.containers[i]).parent matches Some(t)
            ==> lookup(crate::validation::element_entries(d), t) == Some(crate::validation::ElementKind::Container)),
        forall|i: int| 0 <= i < d.edges.len() ==> placeable(crate::validation::element_entries(d), (#[trigger] d.edges[i]).from)
            && placeable(crate::validation::element_entries(d), d.edges[i].to),
{
    let e = crate::validation::element_entries(d);
    lemma_id_problems_distinct(e);
    assert forall|i: int| 0 <= i < d.nodes.len() implies ((#[trigger] d.nodes[i]).container matches Some(t)
        ==> lookup(e, t) == Some(crate::validation::ElementKind::Container)) by {
        lemma_membership_clean(e, d.nodes, i);
    }
    assert forall|i: int| 0 <= i < d.containers.len() implies ((#[trigger] d.containers[i]).parent matches Some(t)
        ==> lookup(e, t) == Some(crate::validation::ElementKind::Container)) by {
        lemma_parents_clean(e, d.containers, i);
    }
    assert forall|i: int| 0 <= i < d.edges.len() implies placeable(e, (#[trigger] d.edges[i]).from) && placeable(e, d.edges[i].to) by {
        lemma_edges_clean(e, d.edges, i);
    }
}

/// The element entry behind each vertex pair.
spec fn element_position(d: DesignView, a: int) -> int {
    if a < d.nodes.len() {
        d.containers.len() + a
    } else {
        a - d.nodes.len()
    }
}

proof fn lemma_pairs_distinct(d: DesignView)
    requires
        distinct_keys(crate::validation::element_entries(d)),
    ensures
        distinct_keys(vertex_pairs(d)),
        distinct_keys(parent_pairs(d.containers)),
{
    let e = crate::validation::element_entries(d);
    let vp = vertex_pairs(d);
    let pp = parent_pairs(d.containers);
    assert forall|a: int| 0 <= a < vp.len() implies vp[a].0 == e[element_position(d, a)].0 && 0 <= element_position(d, a) < e.len() by {
        if a < d.nodes.len() {
            assert(vp[a].0 == d.nodes[a].id);
            assert(e[d.containers.len() + a].0 == d.nodes[a].id);
        } else {
            assert(vp[a].0 == d.containers[a - d.nodes.len()].id);
            assert(e[a - d.nodes.len()].0 == d.containers[a - d.nodes.len()].id);
        }
    }
    assert forall|a: int, b: int| 0 <= a < vp.len() && 0 <= b < vp.len() && a != b implies (#[trigger] vp[a]).0 != (#[trigger] vp[b]).0 by {
        assert(vp[a].0 == e[element_position(d, a)].0);
        assert(vp[b].0 == e[element_position(d, b)].0);
    }
    assert forall|a: int, b: int| 0 <= a < pp.len() && 0 <= b < pp.len() && a != b implies (#[trigger] pp[a]).0 != (#[trigger] pp[b]).0 by {
        assert(pp[a].0 == e[a].0 && pp[b].0 == e[b].0);
    }
}

/// In a valid design each node and container id has one entry, so lookups
/// find each record's own parent link and kind.
pub proof fn lemma_vertex_lookups(d: DesignView)
    requires
        well_formed(d),
    ensures
        distinct_keys(vertex_pairs(d)),
        forall|i: int| 0 <= i < d.nodes.len() ==> lookup(vertex_pairs(d), (#[trigger] d.nodes[i]).id) == Some(d.nodes[i].container)
            && lookup(crate::validation::element_entries(d), d.nodes[i].id) == Some(crate::validation::ElementKind::Node),
        forall|j: int| 0 <= j < d.containers.len() ==> lookup(vertex_pairs(d), (#[trigger] d.containers[j]).id) == Some(d.containers[j].parent)
            && lookup(parent_pairs(d.containers), d.containers[j].id) == Some(d.containers[j].parent)
            && lookup(crate::validation::element_entries(d), d.containers[j].id) == Some(crate::validation::ElementKind::Container),
{
    lemma_pairs_distinct(d);
    let e = crate::validation::element_entries(d);
    let vp = vertex_pairs(d);
    let pp = parent_pairs(d.containers);
    let nn = d.nodes.len() as int;
    let nc = d.containers.len() as int;
    assert forall|i: int| 0 <= i < d.nodes.len() implies lookup(vp, (#[trigger] d.nodes[i]).id) == Some(d.nodes[i].container)
        && lookup(e, d.nodes[i].id) == Some(crate::validation::ElementKind::Node) by {
        assert(vp[i] == (d.nodes[i].id, d.nodes[i].container));
        lemma_lookup_distinct(vp, i);
        assert(e[nc + i] == (d.nodes[i].id, crate::validation::ElementKind::Node));
        lemma_lookup_distinct(e, nc + i);
    }
    assert forall|j: int| 0 <= j < d.containers.len() implies lookup(vp, (#[trigger] d.containers[j]).id) == Some(d.containers[j].parent)
        && lookup(pp, d.containers[j].id) == Some(d.containers[j].parent)
        && lookup(e, d.containers[j].id) == Some(crate::validation::ElementKind::Container) by {
        assert(vp[nn + j] == (d.containers[j].id, d.containers[j].parent));
        lemma_lookup_distinct(vp, nn + j);
        assert(pp[j] == (d.containers[j].id, d.containers[j].parent));
        lemma_lookup_distinct(pp, j);
        assert(e[j] == (d.containers[j].id, crate::validation::ElementKind::Container));
        lemma_lookup_distinct(e, j);
    }
}

/// A node or container id of a valid design is a node id or a container id.
pub(crate) proof fn lemma_placeable_vertex(d: DesignView, x: Seq<char>)
    requires
        placeable(crate::validation::element_entries(d), x),
    ensures
        has_key(vertex_pairs(d), x),
        lookup(crate::validation::element_entries(d), x) == Some(crate::validation::ElementKind::Node)
            ==> exists|i: int| 0 <= i < d.nodes.len() && (#[trigger] d.nodes[i]).id == x,
        lookup(crate::validation::element_entries(d), x) == Some(crate::validation::ElementKind::Container)
            ==> exists|j: int| 0 <= j < d.containers.len() && (#[trigger] d.containers[j]).id == x,
{
    let e = crate::validation::element_entries(d);
    let vp = vertex_pairs(d);
    let nn = d.nodes.len() as int;
    let nc = d.containers.len() as int;
    let kind = lookup(e, x).unwrap();
    lemma_lookup_has_key(e, x);
    let k = choose|k: int| 0 <= k < e.len() && #[trigger] e[k] == (x, kind);
    if k < nc {
        assert(e[k] == (d.containers[k].id, crate::validation::ElementKind::Container));
        assert(vp[nn + k].0 == x);
        crate::id_map::lemma_has_key_at(vp, nn + k);
    } else if k < nc + nn {
        assert(e[k] == (d.nodes[k - nc].id, crate::validation::ElementKind::Node));
        assert(vp[k - nc].0 == x);
        crate::id_map::lemma_has_key_at(vp, k - nc);
    } else if k < nc + nn + d.edges.len() {
        assert(e[k].1 == crate::validation::ElementKind::Edge);
    } else {
        assert(e[k].1 == crate::validation::ElementKind::Note);
    }
}


/// A chain climbs at most `fuel` containers.
proof fn lemma_chain_len(pp: Seq<(Seq<char>, Option<Seq<char>>)>, s: Option<Seq<char>>, fuel: nat)
    ensures
        chain(pp, s, fuel).len() <= fuel,
    decreases fuel,
{
    if let Some(a) = s {
        if fuel > 0 {
            lemma_chain_len(pp, parent_of(pp, a), (fuel - 1) as nat);
        }
    }
}

/// More fuel changes nothing once the chain has reached the top.
pub(crate) proof fn lemma_chain_fuel(pp: Seq<(Seq<char>, Option<Seq<char>>)>, s: Option<Seq<char>>, fuel: nat)
    requires
        s matches Some(a) ==> ancestor(pp, a, fuel) is None,
    ensures
        chain(pp, s, fuel) == chain(pp, s, fuel + 1),
    decreases fuel,
{
    if let Some(a) = s {
        assert(fuel > 0);
        let b = parent_of(pp, a);
        if let Some(b0) = b {
            assert(ancestor(pp, a, 0) == Some(a));
            assert(ancestor(pp, a, 1) == Some(b0));
            crate::ancestry::lemma_ancestor_add(pp, a, 1, (fuel - 1) as nat);
            assert((1 + (fuel - 1) as nat) as nat == fuel);
        }
        lemma_chain_fuel(pp, b, (fuel - 1) as nat);
    }
}

/// Below anything inside the container `x` there is a vertex inside `x`.
proof fn lemma_leaf_below(d: DesignView, z: Seq<char>, x: Seq<char>)
    requires
        well_formed(d),
        has_key(vertex_pairs(d), z),
        path_of(d, z).contains(x),
    ensures
        exists|y: Seq<char>| #[trigger] leaf_ids(d).contains(y) && path_of(d, y).contains(x),
    decreases d.containers.len() + 2 - path_of(d, z).len(),
{
    let pp = parent_pairs(d.containers);
    let n = d.containers.len();
    let e = crate::validation::element_entries(d);
    lemma_chain_len(pp, parent_of(vertex_pairs(d), z), n + 1);
    if is_leaf(d, z) {
        assert(leaf_ids(d).contains(z));
    } else {
        lemma_vertex_lookups(d);
        // A child `w` of `z`; `z` is then a container.
        let w: Seq<char> = if exists|i: int| 0 <= i < d.containers.len() && (#[trigger] d.containers[i]).parent == Some(z) {
            let i = choose|i: int| 0 <= i < d.containers.len() && (#[trigger] d.containers[i]).parent == Some(z);
            crate::id_map::lemma_has_key_at(vertex_pairs(d), d.nodes.len() + i);
            assert(vertex_pairs(d)[d.nodes.len() + i].0 == d.containers[i].id);
            d.containers[i].id
        } else {
            let i = choose|i: int| 0 <= i < d.nodes.len() && (#[trigger] d.nodes[i]).container == Some(z);
            crate::id_map::lemma_has_key_at(vertex_pairs(d), i);
            assert(vertex_pairs(d)[i].0 == d.nodes[i].id);
            d.nodes[i].id
        };
        assert(parent_of(vertex_pairs(d), w) == Some(z));
        assert(lookup(e, z) == Some(crate::validation::ElementKind::Container));
        lemma_placeable_vertex(d, z);
        let j = choose|j: int| 0 <= j < d.containers.len() && (#[trigger] d.containers[j]).id == z;
        assert(parent_of(vertex_pairs(d), z) == parent_of(pp, z));
        // Climbing from `z` ends within the fuel, so `w`'s path is `z`'s path and `z`.
        lemma_acyclic_chain_ends(pp, z);
        if let Some(b0) = parent_of(pp, z) {
            assert(ancestor(pp, z, 0) == Some(z));
            assert(ancestor(pp, z, 1) == Some(b0));
            crate::ancestry::lemma_ancestor_add(pp, z, 1, n);
            assert((1 + n) as nat == n + 1);
        }
        lemma_chain_fuel(pp, parent_of(pp, z), n);
        assert(path_of(d, w) == path_of(d, z).push(z));
        let k = choose|k: int| 0 <= k < path_of(d, z).len() && path_of(d, z)[k] == x;
        assert(path_of(d, w)[k] == x);
        assert(has_key(vertex_pairs(d), w));
        lemma_leaf_below(d, w, x);
    }
}

proof fn lemma_inside_members(vs: Seq<(Seq<char>, Seq<Seq<char>>)>, x: Seq<char>, k: int)
    requires
        0 <= k < inside(vs, x).len(),
    ensures
        exists|i: int| 0 <= i < vs.len() && (#[trigger] vs[i]).0 == inside(vs, x)[k] && vs[i].1.contains(x),
    decreases vs.len(),
{
    let rest = inside(vs.drop_last(), x);
    if k < rest.len() {
        lemma_inside_members(vs.drop_last(), x, k);
        let i = choose|i: int| 0 <= i < vs.drop_last().len() && (#[trigger] vs.drop_last()[i]).0 == rest[k] && vs.drop_last()[i].1.contains(x);
        assert(vs[i] == vs.drop_last()[i]);
    } else {
        assert(vs[vs.len() - 1] == vs.last());
    }
}

proof fn lemma_inside_complete(vs: Seq<(Seq<char>, Seq<Seq<char>>)>, x: Seq<char>, i: int)
    requires
        0 <= i < vs.len(),
        vs[i].1.contains(x),
    ensures
        inside(vs, x).contains(vs[i].0),
    decreases vs.len(),
{
    if i < vs.len() - 1 {
        assert(vs.drop_last()[i] == vs[i]);
        lemma_inside_complete(vs.drop_last(), x, i);
        let k = choose|k: int| 0 <= k < inside(vs.drop_last(), x).len() && inside(vs.drop_last(), x)[k] == vs[i].0;
        assert(inside(vs, x)[k] == vs[i].0);
    } else {
        let n = inside(vs.drop_last(), x).len() as int;
        assert(inside(vs, x)[n] == vs[i].0);
    }
}

/// Every vertex an edge endpoint of a well-formed design stands for is a vertex.
proof fn lemma_endpoints_are_vertices(d: DesignView, x: Seq<char>)
    requires
        well_formed(d),
        placeable(crate::validation::element_entries(d), x),
        strictly_increasing(sorted_ids(leaf_ids(d))),
        sorted_ids(leaf_ids(d)).to_set() == leaf_ids(d),
    ensures
        forall|k: int| 0 <= k < endpoints(vertices(d), x).len() ==> leaf_ids(d).contains(#[trigger] endpoints(vertices(d), x)[k]),
{
    let vs = vertices(d);
    let sorted = sorted_ids(leaf_ids(d));
    let e = crate::validation::element_entries(d);
    lemma_placeable_vertex(d, x);
    if inside(vs, x).len() == 0 {
        if !is_leaf(d, x) {
            lemma_vertex_lookups(d);
            let w: Seq<char> = if exists|i: int| 0 <= i < d.containers.len() && (#[trigger] d.containers[i]).parent == Some(x) {
                let i = choose|i: int| 0 <= i < d.containers.len() && (#[trigger] d.containers[i]).parent == Some(x);
                crate::id_map::lemma_has_key_at(vertex_pairs(d), d.nodes.len() + i);
                assert(vertex_pairs(d)[d.nodes.len() + i].0 == d.containers[i].id);
                d.containers[i].id
            } else {
                let i = choose|i: int| 0 <= i < d.nodes.len() && (#[trigger] d.nodes[i]).container == Some(x);
                crate::id_map::lemma_has_key_at(vertex_pairs(d), i);
                assert(vertex_pairs(d)[i].0 == d.nodes[i].id);
                d.nodes[i].id
            };
            let pp = parent_pairs(d.containers);
            assert(parent_of(vertex_pairs(d), w) == Some(x));
            let path = path_of(d, w);
            assert(path == chain(pp, parent_of(pp, x), d.containers.len()).push(x));
            assert(path[path.len() - 1] == x);
            lemma_leaf_below(d, w, x);
            let y = choose|y: Seq<char>| #[trigger] leaf_ids(d).contains(y) && path_of(d, y).contains(x);
            assert(sorted.to_set().contains(y));
            let i = choose|i: int| 0 <= i < sorted.len() && sorted[i] == y;
            assert(vs[i] == (y, path_of(d, y)));
            lemma_inside_complete(vs, x, i);
        }
        assert(leaf_ids(d).contains(x));
    } else {
        assert forall|k: int| 0 <= k < endpoints(vs, x).len() implies leaf_ids(d).contains(#[trigger] endpoints(vs, x)[k]) by {
            lemma_inside_members(vs, x, k);
            let i = choose|i: int| 0 <= i < vs.len() && (#[trigger] vs[i]).0 == inside(vs, x)[k] && vs[i].1.contains(x);
            assert(sorted.to_set().contains(sorted[i]));
        }
    }
}

proof fn lemma_edge_arcs_endpoints(id: Seq<char>, froms: Seq<Seq<char>>, tos: Seq<Seq<char>>, ids: Set<Seq<char>>)
    requires
        forall|k: int| 0 <= k < froms.len() ==> ids.contains(#[trigger] froms[k]),
        forall|k: int| 0 <= k < tos.len() ==> ids.contains(#[trigger] tos[k]),
    ensures
        endpoints_in(edge_arcs(id, froms, tos), ids),
    decreases froms.len(),
{
    if froms.len() > 0 {
        lemma_edge_arcs_endpoints(id, froms.drop_last(), tos, ids);
        let before = edge_arcs(id, froms.drop_last(), tos);
        let row = tos.map_values(|t: Seq<char>| (id, froms.last(), t));
        assert(ids.contains(froms[froms.len() - 1]));
        assert forall|k: int| 0 <= k < edge_arcs(id, froms, tos).len() implies ids.contains((#[trigger] edge_arcs(id, froms, tos)[k]).1)
            && ids.contains(edge_arcs(id, froms, tos)[k].2) by {
            if k < before.len() {
                assert(edge_arcs(id, froms, tos)[k] == before[k]);
            } else {
                assert(edge_arcs(id, froms, tos)[k] == row[k - before.len()]);
                assert(ids.contains(tos[k - before.len()]));
            }
        }
    }
}

proof fn lemma_arcs_of_endpoints(vs: Seq<(Seq<char>, Seq<Seq<char>>)>, es: Seq<crate::model::EdgeView>, ids: Set<Seq<char>>)
    requires
        forall|i: int, k: int| 0 <= i < es.len() && 0 <= k < endpoints(vs, es[i].from).len() ==> ids.contains(#[trigger] endpoints(vs, (#[trigger] es[i]).from)[k]),
        forall|i: int, k: int| 0 <= i < es.len() && 0 <= k < endpoints(vs, es[i].to).len() ==> ids.contains(#[trigger] endpoints(vs, (#[trigger] es[i]).to)[k]),
    ensures
        endpoints_in(arcs_of(vs, es), ids),
    decreases es.len(),
{
    if es.len() > 0 {
        let last = es.last();
        assert forall|i: int, k: int| 0 <= i < es.drop_last().len() && 0 <= k < endpoints(vs, es.drop_last()[i].from).len() implies ids.contains(#[trigger] endpoints(vs, (#[trigger] es.drop_last()[i]).from)[k]) by {
            assert(es.drop_last()[i] == es[i]);
        }
        assert forall|i: int, k: int| 0 <= i < es.drop_last().len() && 0 <= k < endpoints(vs, es.drop_last()[i].to).len() implies ids.contains(#[trigger] endpoints(vs, (#[trigger] es.drop_last()[i]).to)[k]) by {
            assert(es.drop_last()[i] == es[i]);
        }
        lemma_arcs_of_endpoints(vs, es.drop_last(), ids);
        let n = es.len() - 1;
        assert(es[n] == last);
        assert forall|k: int| 0 <= k < endpoints(vs, last.from).len() implies ids.contains(#[trigger] endpoints(vs, last.from)[k]) by {
            assert(ids.contains(endpoints(vs, es[n].from)[k]));
        }
        assert forall|k: int| 0 <= k < endpoints(vs, last.to).len() implies ids.contains(#[trigger] endpoints(vs, last.to)[k]) by {
            assert(ids.contains(endpoints(vs, es[n].to)[k]));
        }
        lemma_edge_arcs_endpoints(last.id, endpoints(vs, last.from), endpoints(vs, last.to), ids);
        let before = arcs_of(vs, es.drop_last());
        let added = edge_arcs(last.id, endpoints(vs, last.from), endpoints(vs, last.to));
        assert forall|k: int| 0 <= k < arcs_of(vs, es).len() implies ids.contains((#[trigger] arcs_of(vs, es)[k]).1) && ids.contains(arcs_of(vs, es)[k].2) by {
            if k < before.len() {
                assert(arcs_of(vs, es)[k] == before[k]);
            } else {
                assert(arcs_of(vs, es)[k] == added[k - before.len()]);
            }
        }
    }
}

/// Every arc of a well-formed design joins two vertices.
proof fn lemma_design_arcs_join_vertices(d: DesignView)
    requires
        well_formed(d),
        strictly_increasing(sorted_ids(leaf_ids(d))),
        sorted_ids(leaf_ids(d)).to_set() == leaf_ids(d),
        crate::order::is_id_order(crate::edit::edge_ids(d.edges), crate::order::spec_id_order(crate::edit::edge_ids(d.edges))),
    ensures
        endpoints_in(design_arcs(d), leaf_ids(d)),
{
    let es = crate::edit::sorted_by_id(d.edges, crate::edit::edge_ids(d.edges));
    let order = crate::order::spec_id_order(crate::edit::edge_ids(d.edges));
    let vs = vertices(d);
    let e = crate::validation::element_entries(d);
    assert forall|i: int| 0 <= i < es.len() implies placeable(e, (#[trigger] es[i]).from) && placeable(e, es[i].to) by {
        assert(order[i] < d.edges.len());
        assert(es[i] == d.edges[order[i] as int]);
    }
    assert forall|i: int, k: int| 0 <= i < es.len() && 0 <= k < endpoints(vs, es[i].from).len() implies leaf_ids(d).contains(#[trigger] endpoints(vs, (#[trigger] es[i]).from)[k]) by {
        lemma_endpoints_are_vertices(d, es[i].from);
    }
    assert forall|i: int, k: int| 0 <= i < es.len() && 0 <= k < endpoints(vs, es[i].to).len() implies leaf_ids(d).contains(#[trigger] endpoints(vs, (#[trigger] es[i]).to)[k]) by {
        lemma_endpoints_are_vertices(d, es[i].to);
    }
    lemma_arcs_of_endpoints(vs, es, leaf_ids(d));
}

// ---------------------------------------------------------------------------
// The layered graph

/// Breaking cycles keeps arcs between the same vertices.
proof fn lemma_broken_joins(arcs: Seq<(Seq<char>, Seq<char>, Seq<char>)>, ids: Set<Seq<char>>)
    requires
        endpoints_in(arcs, ids),
    ensures
        endpoints_in(broken(arcs), ids),
        forall|k: int| 0 <= k < broken(arcs).len() ==> !#[trigger] on_cycle(broken(arcs), k),
{
    lemma_broken_subset(arcs);
    law_broken_arcs_lie_on_no_cycle(arcs);
    let a = broken(arcs);
    assert forall|k: int| 0 <= k < a.len() implies ids.contains((#[trigger] a[k]).1) && ids.contains(a[k].2) by {
        assert(arcs.contains(a[k]));
        let j = choose|j: int| 0 <= j < arcs.len() && arcs[j] == a[k];
        assert(ids.contains(arcs[j].1) && ids.contains(arcs[j].2));
    }
}

/// What the automatic layout orders and places: the vertices, the arcs
/// left once cycles are broken, and the vertices grouped by rank.
#[derive(Debug)]
pub struct LayerGraph {
    pub vertices: Vec<Vertex>,
    pub arcs: Vec<Arc>,
    pub layers: Vec<Vec<String>>,
}

/// The layered graph of a valid design: its vertices in id order, the
/// arcs of its edges in edge id order with the greatest edge id on a cycle
/// dropped until no arc lies on a cycle, and the vertices grouped by the
/// length of the longest walk of arcs ending at them.
pub fn layer_graph(design: &Design) -> (graph: LayerGraph)
    requires
        crate::validation::spec_is_valid(design@),
    ensures
        vertex_views(graph.vertices@) == vertices(design@),
        arc_views(graph.arcs@) == broken(design_arcs(design@)),
        graph.layers.deep_view() == ranked(vertex_ids(vertices(design@)), broken(design_arcs(design@))),
{
    let ghost d = design@;
    proof {
        lemma_valid_well_formed(d);
    }
    let all = paths(design);
    let vertices = leaves(design, &all);
    let mut arcs = arcs(design, &vertices);
    proof {
        lemma_design_arcs_join_vertices(d);
    }
    let ghost before = arc_views(arcs@);
    break_cycles(&mut arcs);
    proof {
        assert(vertex_ids(vertex_views(vertices@)) =~= sorted_ids(leaf_ids(d)));
        lemma_broken_joins(before, leaf_ids(d));
    }
    let layers = assign_layers(&vertices, &arcs);
    LayerGraph { vertices, arcs, layers }
}

// ---------------------------------------------------------------------------
// Laws of the layering

/// Arc edge ids never decrease along the sequence.
pub open spec fn ids_ordered(arcs: Seq<(Seq<char>, Seq<char>, Seq<char>)>) -> bool {
    forall|i: int, j: int| 0 <= i < j < arcs.len() ==> !crate::text::lex_lt((#[trigger] arcs[j]).0, (#[trigger] arcs[i]).0)
}

/// With arcs in edge id order, each round of cycle breaking drops the
/// greatest edge id among the arcs that lie on a cycle.
pub proof fn law_break_drops_greatest_cycle_id(arcs: Seq<(Seq<char>, Seq<char>, Seq<char>)>)
    requires
        ids_ordered(arcs),
    ensures
        last_on_cycle(arcs, arcs.len() as int) matches Some(k) ==> forall|j: int|
            0 <= j < arcs.len() && #[trigger] on_cycle(arcs, j) ==> !crate::text::lex_lt(arcs[k].0, arcs[j].0),
        last_on_cycle(arcs, arcs.len() as int) is None ==> forall|j: int| 0 <= j < arcs.len() ==> !#[trigger] on_cycle(arcs, j),
{
    lemma_last_on_cycle(arcs, arcs.len() as int);
    if let Some(k) = last_on_cycle(arcs, arcs.len() as int) {
        assert forall|j: int| 0 <= j < arcs.len() && #[trigger] on_cycle(arcs, j) implies !crate::text::lex_lt(arcs[k].0, arcs[j].0) by {
            if j > k {
                assert(!on_cycle(arcs, j));
            } else if j < k {
                assert(!crate::text::lex_lt(arcs[k].0, arcs[j].0));
            } else {
                crate::text::lemma_lex_irreflexive(arcs[k].0);
            }
        }
    }
}

proof fn lemma_edge_arcs_ids(id: Seq<char>, froms: Seq<Seq<char>>, tos: Seq<Seq<char>>)
    ensures
        forall|k: int| 0 <= k < edge_arcs(id, froms, tos).len() ==> (#[trigger] edge_arcs(id, froms, tos)[k]).0 == id,
    decreases froms.len(),
{
    if froms.len() > 0 {
        lemma_edge_arcs_ids(id, froms.drop_last(), tos);
        let before = edge_arcs(id, froms.drop_last(), tos);
        assert forall|k: int| 0 <= k < edge_arcs(id, froms, tos).len() implies (#[trigger] edge_arcs(id, froms, tos)[k]).0 == id by {
            if k < before.len() {
                assert(edge_arcs(id, froms, tos)[k] == before[k]);
            }
        }
    }
}

/// Arcs of edges listed by nondecreasing id come in nondecreasing id order.
proof fn lemma_arcs_of_ordered(vs: Seq<(Seq<char>, Seq<Seq<char>>)>, es: Seq<crate::model::EdgeView>)
    requires
        forall|i: int, j: int| 0 <= i < j < es.len() ==> !crate::text::lex_lt((#[trigger] es[j]).id, (#[trigger] es[i]).id),
    ensures
        ids_ordered(arcs_of(vs, es)),
        forall|k: int| 0 <= k < arcs_of(vs, es).len() ==> exists|i: int| 0 <= i < es.len() && (#[trigger] arcs_of(vs, es)[k]).0 == es[i].id,
    decreases es.len(),
{
    if es.len() > 0 {
        let rest = es.drop_last();
        assert forall|i: int, j: int| 0 <= i < j < rest.len() implies !crate::text::lex_lt((#[trigger] rest[j]).id, (#[trigger] rest[i]).id) by {
            assert(rest[i] == es[i] && rest[j] == es[j]);
        }
        lemma_arcs_of_ordered(vs, rest);
        let last = es.last();
        let before = arcs_of(vs, rest);
        let added = edge_arcs(last.id, endpoints(vs, last.from), endpoints(vs, last.to));
        lemma_edge_arcs_ids(last.id, endpoints(vs, last.from), endpoints(vs, last.to));
        let all = arcs_of(vs, es);
        assert forall|k: int| 0 <= k < all.len() implies exists|i: int| 0 <= i < es.len() && (#[trigger] all[k]).0 == es[i].id by {
            if k < before.len() {
                assert(all[k] == before[k]);
                let i = choose|i: int| 0 <= i < rest.len() && (#[trigger] before[k]).0 == rest[i].id;
                assert(es[i] == rest[i]);
            } else {
                assert(all[k] == added[k - before.len()]);
                assert(all[k].0 == es[es.len() - 1].id);
            }
        }
        assert forall|a: int, b: int| 0 <= a < b < all.len() implies !crate::text::lex_lt((#[trigger] all[b]).0, (#[trigger] all[a]).0) by {
            if b < before.len() {
                assert(all[a] == before[a] && all[b] == before[b]);
            } else if a >= before.len() {
                assert(all[a] == added[a - before.len()] && all[b] == added[b - before.len()]);
                crate::text::lemma_lex_irreflexive(last.id);
            } else {
                assert(all[a] == before[a]);
                assert(all[b] == added[b - before.len()]);
                let i = choose|i: int| 0 <= i < rest.len() && (#[trigger] before[a]).0 == rest[i].id;
                assert(es[i] == rest[i]);
                let n = es.len() - 1;
                assert(!crate::text::lex_lt(es[n].id, es[i].id));
            }
        }
    }
}

/// A design's arcs come in edge id order, so breaking its cycles drops,
/// round by round, the greatest edge id among the arcs on a cycle.
pub proof fn law_design_arcs_follow_edge_ids(d: DesignView)
    requires
        d.edges.len() <= usize::MAX,
    ensures
        ids_ordered(design_arcs(d)),
{
    let ids = crate::edit::edge_ids(d.edges);
    crate::order::lemma_id_order_exists(ids);
    let order = crate::order::spec_id_order(ids);
    let es = crate::edit::sorted_by_id(d.edges, ids);
    assert forall|i: int, j: int| 0 <= i < j < es.len() implies !crate::text::lex_lt((#[trigger] es[j]).id, (#[trigger] es[i]).id) by {
        assert(crate::order::id_before(ids, order[i] as int, order[j] as int));
        assert(es[i].id == ids[order[i] as int]);
        assert(es[j].id == ids[order[j] as int]);
        if crate::text::lex_lt(ids[order[i] as int], ids[order[j] as int]) {
            crate::text::lemma_lex_asymmetric(ids[order[i] as int], ids[order[j] as int]);
        } else {
            crate::text::lemma_lex_irreflexive(ids[order[i] as int]);
        }
    }
    lemma_arcs_of_ordered(vertices(d), es);
}

proof fn lemma_longest_into_attained(arcs: Seq<(Seq<char>, Seq<char>, Seq<char>)>, v: Seq<char>, n: nat, m: nat)
    requires
        m <= arcs.len(),
    ensures
        longest_into(arcs, v, n, m) == 0 || exists|k: int| 0 <= k < m && (#[trigger] arcs[k]).2 == v
            && longest_into(arcs, v, n, m) == depth(arcs, arcs[k].1, n) + 1,
    decreases m,
{
    if m > 0 {
        lemma_longest_into_attained(arcs, v, n, (m - 1) as nat);
    }
}

/// Some walk is exactly as long as a depth.
proof fn lemma_depth_realized(arcs: Seq<(Seq<char>, Seq<char>, Seq<char>)>, v: Seq<char>, n: nat)
    ensures
        realized(arcs, v, depth(arcs, v, n)),
    decreases n,
{
    if depth(arcs, v, n) == 0 {
        assert(is_walk(arcs, seq![v]));
    } else {
        lemma_longest_into_attained(arcs, v, (n - 1) as nat, arcs.len());
        let k = choose|k: int| 0 <= k < arcs.len() && (#[trigger] arcs[k]).2 == v
            && longest_into(arcs, v, (n - 1) as nat, arcs.len()) == depth(arcs, arcs[k].1, (n - 1) as nat) + 1;
        lemma_depth_realized(arcs, arcs[k].1, (n - 1) as nat);
        let p = choose|p: Seq<Seq<char>>| #[trigger] is_walk(arcs, p) && p.last() == arcs[k].1 && p.len() == depth(arcs, arcs[k].1, (n - 1) as nat) + 1;
        let q = p.push(v);
        assert forall|t: int| 0 <= t < q.len() - 1 implies #[trigger] has_arc(arcs, q[t], q[t + 1]) by {
            if t < p.len() - 1 {
                assert(q[t] == p[t] && q[t + 1] == p[t + 1]);
                assert(has_arc(arcs, p[t], p[t + 1]));
            } else {
                assert(arcs[k].1 == q[t] && arcs[k].2 == q[t + 1]);
            }
        }
        assert(is_walk(arcs, q));
    }
}

/// Where no arc lies on a cycle, a vertex's depth stops growing once walks
/// of every length fit: one arc fewer than there are vertices.
proof fn lemma_depth_stable(arcs: Seq<(Seq<char>, Seq<char>, Seq<char>)>, ids: Seq<Seq<char>>, v: Seq<char>, n: nat)
    requires
        endpoints_in(arcs, ids.to_set()),
        forall|k: int| 0 <= k < arcs.len() ==> !#[trigger] on_cycle(arcs, k),
        ids.to_set().contains(v),
        n + 1 >= ids.len(),
    ensures
        depth(arcs, v, n) == depth(arcs, v, (ids.len() - 1) as nat),
        depth(arcs, v, n) < ids.len(),
{
    lemma_depth_realized(arcs, v, n);
    let p = choose|p: Seq<Seq<char>>| #[trigger] is_walk(arcs, p) && p.last() == v && p.len() == depth(arcs, v, n) + 1;
    lemma_walk_bound(arcs, ids, p);
    lemma_walk_depth(arcs, p);
    lemma_depth_monotone(arcs, v, (p.len() - 1) as nat, (ids.len() - 1) as nat);
    lemma_depth_monotone(arcs, v, (ids.len() - 1) as nat, n);
}

/// The rank of a vertex is the length of the longest walk of arcs that ends
/// at it: no walk is longer, some walk is that long, every arc leads to a
/// higher rank, and every vertex above rank zero is reached by an arc from
/// the rank just below. This needs arcs between vertices and on no cycle.
pub proof fn law_ranks_are_longest_paths(ids: Seq<Seq<char>>, arcs: Seq<(Seq<char>, Seq<char>, Seq<char>)>)
    requires
        endpoints_in(arcs, ids.to_set()),
        forall|k: int| 0 <= k < arcs.len() ==> !#[trigger] on_cycle(arcs, k),
    ensures
        forall|p: Seq<Seq<char>>| #[trigger] is_walk(arcs, p) ==> p.len() - 1 <= depth(arcs, p.last(), ids.len()),
        forall|v: Seq<char>| ids.contains(v) ==> #[trigger] realized(arcs, v, depth(arcs, v, ids.len())),
        forall|k: int| 0 <= k < arcs.len() ==> depth(arcs, (#[trigger] arcs[k]).2, ids.len()) >= depth(arcs, arcs[k].1, ids.len()) + 1,
        forall|v: Seq<char>| ids.contains(v) && #[trigger] depth(arcs, v, ids.len()) > 0 ==> exists|k: int| 0 <= k < arcs.len()
            && (#[trigger] arcs[k]).2 == v && depth(arcs, arcs[k].1, ids.len()) + 1 == depth(arcs, v, ids.len()),
{
    let n = ids.len();
    assert forall|p: Seq<Seq<char>>| #[trigger] is_walk(arcs, p) implies p.len() - 1 <= depth(arcs, p.last(), n) by {
        if p.len() > 1 {
            let i = p.len() - 2;
            assert(has_arc(arcs, p[i], p[i + 1]));
            let k = choose|k: int| 0 <= k < arcs.len() && (#[trigger] arcs[k]).1 == p[i] && arcs[k].2 == p[i + 1];
            assert(ids.to_set().contains(arcs[k].2));
            lemma_walk_bound(arcs, ids, p);
            lemma_walk_depth(arcs, p);
            lemma_depth_monotone(arcs, p.last(), (p.len() - 1) as nat, n);
        }
    }
    assert forall|v: Seq<char>| ids.contains(v) implies #[trigger] realized(arcs, v, depth(arcs, v, n)) by {
        lemma_depth_realized(arcs, v, n);
    }
    assert forall|k: int| 0 <= k < arcs.len() implies depth(arcs, (#[trigger] arcs[k]).2, n) >= depth(arcs, arcs[k].1, n) + 1 by {
        assert(ids.to_set().contains(arcs[k].1));
        lemma_depth_stable(arcs, ids, arcs[k].1, n);
        lemma_longest_into_at_least(arcs, arcs[k].2, (n - 1) as nat, arcs.len(), k);
    }
    assert forall|v: Seq<char>| ids.contains(v) && #[trigger] depth(arcs, v, n) > 0 implies exists|k: int| 0 <= k < arcs.len()
        && (#[trigger] arcs[k]).2 == v && depth(arcs, arcs[k].1, n) + 1 == depth(arcs, v, n) by {
        lemma_longest_into_attained(arcs, v, (n - 1) as nat, arcs.len());
        let k = choose|k: int| 0 <= k < arcs.len() && (#[trigger] arcs[k]).2 == v
            && longest_into(arcs, v, (n - 1) as nat, arcs.len()) == depth(arcs, arcs[k].1, (n - 1) as nat) + 1;
        assert(ids.to_set().contains(arcs[k].1));
        lemma_depth_stable(arcs, ids, arcs[k].1, n);
        lemma_depth_stable(arcs, ids, arcs[k].1, (n - 1) as nat);
    }
}

/// Ids are unique across the whole of a valid design.
pub proof fn law_valid_ids_are_unique(d: DesignView)
    requires
        crate::validation::spec_is_valid(d),
    ensures
        distinct_keys(crate::validation::element_entries(d)),
{
    lemma_valid_structure(d);
}

// ---------------------------------------------------------------------------
// Vertices within a layer

/// The entries of `s` whose ids have nothing inside them, in order.
spec fn leaf_pairs(d: DesignView, s: Seq<(Seq<char>, Option<Seq<char>>)>) -> Seq<(Seq<char>, Option<Seq<char>>)>
    decreases s.len(),
{
    if s.len() == 0 {
        s
    } else {
        leaf_pairs(d, s.drop_last()) + if is_leaf(d, s.last().0) { seq![s.last()] } else { Seq::empty() }
    }
}

proof fn lemma_leaf_pairs(d: DesignView, s: Seq<(Seq<char>, Option<Seq<char>>)>, x: Seq<char>)
    ensures
        has_key(leaf_pairs(d, s), x) <==> has_key(s, x) && is_leaf(d, x),
    decreases s.len(),
{
    if s.len() > 0 {
        let before = s.drop_last();
        lemma_leaf_pairs(d, before, x);
        let t = leaf_pairs(d, before);
        let u = leaf_pairs(d, s);
        if has_key(u, x) {
            let i = choose|i: int| 0 <= i < u.len() && #[trigger] u[i].0 == x;
            if i < t.len() {
                assert(u[i] == t[i]);
                let j = choose|j: int| 0 <= j < before.len() && #[trigger] before[j].0 == x;
                assert(s[j].0 == x);
            } else {
                assert(s[s.len() - 1].0 == x);
            }
        }
        if has_key(s, x) && is_leaf(d, x) {
            let j = choose|j: int| 0 <= j < s.len() && #[trigger] s[j].0 == x;
            if j < before.len() {
                assert(before[j].0 == x);
                let i = choose|i: int| 0 <= i < t.len() && #[trigger] t[i].0 == x;
                assert(u[i] == t[i]);
            } else {
                assert(u[u.len() - 1] == s.last());
            }
        }
    }
}

/// The leaves of a design, listed in increasing order, exist.
proof fn lemma_leaf_listing(d: DesignView)
    ensures
        strictly_increasing(sorted_ids(leaf_ids(d))),
        sorted_ids(leaf_ids(d)).to_set() == leaf_ids(d),
{
    let lp = leaf_pairs(d, vertex_pairs(d));
    assert forall|x: Seq<char>| key_set(lp).contains(x) <==> leaf_ids(d).contains(x) by {
        lemma_leaf_pairs(d, vertex_pairs(d), x);
    }
    assert(key_set(lp) =~= leaf_ids(d));
    crate::ancestry::lemma_sorted_keys_exist(lp);
    lemma_sorted_ids_of(crate::ancestry::sorted_keys(lp), leaf_ids(d));
}

/// Climbing from a complete chain's start with more fuel gives the same chain.
proof fn lemma_chain_complete(pp: Seq<(Seq<char>, Option<Seq<char>>)>, s: Option<Seq<char>>, f: nat, g: nat)
    requires
        s matches Some(a) ==> ancestor(pp, a, f) is None,
        f <= g,
    ensures
        chain(pp, s, f) == chain(pp, s, g),
    decreases g - f,
{
    if f < g {
        lemma_chain_fuel(pp, s, f);
        if let Some(a) = s {
            assert(ancestor(pp, a, f + 1) is None);
        }
        lemma_chain_complete(pp, s, f + 1, g);
    }
}

/// The part of a complete chain up to an entry is the complete chain of that entry.
proof fn lemma_chain_prefix(pp: Seq<(Seq<char>, Option<Seq<char>>)>, s: Option<Seq<char>>, f: nat, i: int) -> (g: nat)
    requires
        0 <= i < chain(pp, s, f).len(),
        s matches Some(a) ==> ancestor(pp, a, f) is None,
    ensures
        chain(pp, s, f).take(i + 1) == chain(pp, Some(chain(pp, s, f)[i]), g),
        ancestor(pp, chain(pp, s, f)[i], g) is None,
    decreases f,
{
    let a = s.unwrap();
    let c = chain(pp, s, f);
    let inner = chain(pp, parent_of(pp, a), (f - 1) as nat);
    assert(c == inner.push(a));
    if i == c.len() - 1 {
        assert(c.take(i + 1) =~= c);
        f
    } else {
        if let Some(b) = parent_of(pp, a) {
            assert(ancestor(pp, a, 0) == Some(a));
            assert(ancestor(pp, a, 1) == Some(b));
            crate::ancestry::lemma_ancestor_add(pp, a, 1, (f - 1) as nat);
            assert((1 + (f - 1) as nat) as nat == f);
        }
        let g = lemma_chain_prefix(pp, parent_of(pp, a), (f - 1) as nat, i);
        assert(c[i] == inner[i]);
        assert(c.take(i + 1) =~= inner.take(i + 1));
        g
    }
}

/// Every entry of a chain that starts at a container with something inside
/// has something inside.
proof fn lemma_chain_not_leaves(d: DesignView, s: Option<Seq<char>>, f: nat)
    requires
        s matches Some(a) ==> !is_leaf(d, a),
    ensures
        forall|k: int| 0 <= k < chain(parent_pairs(d.containers), s, f).len() ==> !is_leaf(d, #[trigger] chain(parent_pairs(d.containers), s, f)[k]),
    decreases f,
{
    let pp = parent_pairs(d.containers);
    if let Some(a) = s {
        if f > 0 {
            let b = parent_of(pp, a);
            if let Some(b0) = b {
                lemma_lookup_has_key(pp, a);
                let i = choose|i: int| 0 <= i < pp.len() && #[trigger] pp[i] == (a, Some(b0));
                assert(d.containers[i].parent == Some(b0));
            }
            lemma_chain_not_leaves(d, b, (f - 1) as nat);
            let c = chain(pp, s, f);
            let inner = chain(pp, b, (f - 1) as nat);
            assert(c == inner.push(a));
            assert forall|k: int| 0 <= k < c.len() implies !is_leaf(d, #[trigger] c[k]) by {
                if k < inner.len() {
                    assert(c[k] == inner[k]);
                }
            }
        }
    }
}

/// A vertex's path is complete and holds only containers with something inside.
proof fn lemma_vertex_path(d: DesignView, x: Seq<char>)
    requires
        well_formed(d),
        has_key(vertex_pairs(d), x),
    ensures
        parent_of(vertex_pairs(d), x) matches Some(a) ==> ancestor(parent_pairs(d.containers), a, d.containers.len() + 1) is None,
        forall|k: int| 0 <= k < path_of(d, x).len() ==> !is_leaf(d, #[trigger] path_of(d, x)[k]),
{
    let vp = vertex_pairs(d);
    let pp = parent_pairs(d.containers);
    if let Some(a) = parent_of(vp, x) {
        crate::ancestry::lemma_acyclic_chain_ends(pp, a);
        lemma_lookup_has_key(vp, x);
        let k = choose|k: int| 0 <= k < vp.len() && #[trigger] vp[k] == (x, Some(a));
        if k < d.nodes.len() {
            assert(d.nodes[k].container == Some(a));
        } else {
            assert(vp[k] == pp[k - d.nodes.len()]);
            assert(d.containers[k - d.nodes.len()].parent == Some(a));
        }
    }
    lemma_chain_not_leaves(d, parent_of(vp, x), d.containers.len() + 1);
}

/// Any layer of distinct vertices of a valid design can be ordered by sort
/// keys: the vertices' ids are distinct, none lies inside another, and a
/// container's ancestors are the same in every path that holds it.
#[verifier::spinoff_prover]
pub proof fn law_layer_vertices_are_orderable(d: DesignView, layer: Seq<(Seq<char>, Seq<Seq<char>>)>)
    requires
        crate::validation::spec_is_valid(d),
        forall|i: int| 0 <= i < layer.len() ==> vertices(d).contains(#[trigger] layer[i]),
        layer.no_duplicates(),
    ensures
        crate::layer_order::orderable(layer),
        crate::layer_order::consistent_paths(layer),
{
    lemma_valid_well_formed(d);
    lemma_leaf_listing(d);
    let ids = sorted_ids(leaf_ids(d));
    let vs = vertices(d);
    let pp = parent_pairs(d.containers);
    let n = d.containers.len();
    assert forall|i: int| 0 <= i < layer.len() implies leaf_ids(d).contains((#[trigger] layer[i]).0)
        && layer[i].1 == path_of(d, layer[i].0) && has_key(vertex_pairs(d), layer[i].0) by {
        assert(vs.contains(layer[i]));
        let k = choose|k: int| 0 <= k < vs.len() && vs[k] == layer[i];
        assert(vs[k] == (ids[k], path_of(d, ids[k])));
        assert(ids.to_set().contains(ids[k]));
    }
    assert forall|i: int, j: int| 0 <= i < layer.len() && 0 <= j < layer.len() && i != j implies (#[trigger] layer[i]).0 != (#[trigger] layer[j]).0 by {
        if layer[i].0 == layer[j].0 {
            assert(layer[i] == layer[j]);
        }
    }
    assert forall|i: int, j: int| 0 <= i < layer.len() && 0 <= j < layer.len() && i != j implies !(#[trigger] layer[j]).1.contains((#[trigger] layer[i]).0) by {
        lemma_vertex_path(d, layer[j].0);
        if layer[j].1.contains(layer[i].0) {
            let k = choose|k: int| 0 <= k < layer[j].1.len() && layer[j].1[k] == layer[i].0;
            assert(!is_leaf(d, path_of(d, layer[j].0)[k]));
        }
    }
    assert forall|v: int, w: int, i: int, j: int|
        0 <= v < layer.len() && 0 <= w < layer.len() && 0 <= i < layer[v].1.len() && 0 <= j < layer[w].1.len()
            && #[trigger] layer[v].1[i] == #[trigger] layer[w].1[j] implies i == j && layer[v].1.take(i) == layer[w].1.take(j) by {
        let x = layer[v].0;
        let y = layer[w].0;
        lemma_vertex_path(d, x);
        lemma_vertex_path(d, y);
        let c = layer[v].1[i];
        let gv = lemma_chain_prefix(pp, parent_of(vertex_pairs(d), x), n + 1, i);
        let gw = lemma_chain_prefix(pp, parent_of(vertex_pairs(d), y), n + 1, j);
        let top = gv + gw;
        lemma_chain_complete(pp, Some(c), gv, top);
        lemma_chain_complete(pp, Some(c), gw, top);
        let pv = layer[v].1;
        let pw = layer[w].1;
        assert(pv.take(i + 1) == pw.take(j + 1));
        assert(pv.take(i + 1).len() == i + 1);
        assert(pw.take(j + 1).len() == j + 1);
        assert(pv.take(i) =~= pv.take(i + 1).take(i));
        assert(pw.take(j) =~= pw.take(j + 1).take(j));
    }
}

/// The ids of a given rank come from `ids`, each once when `ids` repeats none.
proof fn lemma_with_rank_members(ids: Seq<Seq<char>>, arcs: Seq<(Seq<char>, Seq<char>, Seq<char>)>, n: nat, k: nat)
    ensures
        forall|i: int| 0 <= i < with_rank(ids, arcs, n, k).len() ==> ids.contains(#[trigger] with_rank(ids, arcs, n, k)[i]),
        ids.no_duplicates() ==> with_rank(ids, arcs, n, k).no_duplicates(),
    decreases ids.len(),
{
    if ids.len() > 0 {
        let before = ids.drop_last();
        lemma_with_rank_members(before, arcs, n, k);
        let a = with_rank(before, arcs, n, k);
        let b = with_rank(ids, arcs, n, k);
        assert(b == a + if depth(arcs, ids.last(), n) == k { seq![ids.last()] } else { Seq::<Seq<char>>::empty() });
        assert forall|i: int| 0 <= i < b.len() implies ids.contains(#[trigger] b[i]) by {
            if i < a.len() {
                assert(b[i] == a[i]);
                let j = choose|j: int| 0 <= j < before.len() && before[j] == a[i];
                assert(ids[j] == b[i]);
            } else {
                assert(ids[ids.len() - 1] == b[i]);
            }
        }
        if ids.no_duplicates() {
            assert(before.no_duplicates()) by {
                assert forall|i: int, j: int| 0 <= i < before.len() && 0 <= j < before.len() && i != j implies before[i] != before[j] by {
                    assert(before[i] == ids[i] && before[j] == ids[j]);
                }
            }
            assert forall|i: int, j: int| 0 <= i < b.len() && 0 <= j < b.len() && i != j implies b[i] != b[j] by {
                if i < a.len() && j < a.len() {
                    assert(b[i] == a[i] && b[j] == a[j]);
                } else if i < a.len() {
                    assert(b[i] == a[i]);
                    let m = choose|m: int| 0 <= m < before.len() && before[m] == a[i];
                    assert(ids[m] == a[i]);
                } else if j < a.len() {
                    assert(b[j] == a[j]);
                    let m = choose|m: int| 0 <= m < before.len() && before[m] == a[j];
                    assert(ids[m] == a[j]);
                }
            }
        }
    }
}

/// The vertices with these ids, each with the containers around it.
pub open spec fn with_paths(d: DesignView, ids: Seq<Seq<char>>) -> Seq<(Seq<char>, Seq<Seq<char>>)> {
    ids.map_values(|x: Seq<char>| (x, path_of(d, x)))
}

/// A layer of the layered graph, each vertex with the containers around
/// it, lists distinct vertices of the design.
proof fn lemma_layer_members(d: DesignView, arcs: Seq<(Seq<char>, Seq<char>, Seq<char>)>, k: int)
    requires
        0 <= k < ranked(vertex_ids(vertices(d)), arcs).len(),
    ensures
        forall|i: int| 0 <= i < with_paths(d, ranked(vertex_ids(vertices(d)), arcs)[k]).len()
            ==> vertices(d).contains(#[trigger] with_paths(d, ranked(vertex_ids(vertices(d)), arcs)[k])[i]),
        with_paths(d, ranked(vertex_ids(vertices(d)), arcs)[k]).no_duplicates(),
{
    lemma_leaf_listing(d);
    let vs = vertices(d);
    let ids = vertex_ids(vs);
    let sorted = sorted_ids(leaf_ids(d));
    assert(ids =~= sorted);
    let layer = ranked(ids, arcs)[k];
    assert(layer == with_rank(ids, arcs, ids.len(), k as nat));
    lemma_with_rank_members(ids, arcs, ids.len(), k as nat);
    assert(ids.no_duplicates()) by {
        assert forall|i: int, j: int| 0 <= i < ids.len() && 0 <= j < ids.len() && i != j implies ids[i] != ids[j] by {
            if i < j {
                assert(crate::text::lex_lt(sorted[i], sorted[j]));
                crate::text::lemma_lex_irreflexive(sorted[i]);
            } else {
                assert(crate::text::lex_lt(sorted[j], sorted[i]));
                crate::text::lemma_lex_irreflexive(sorted[j]);
            }
        }
    }
    let members = with_paths(d, layer);
    assert forall|i: int| 0 <= i < members.len() implies vs.contains(#[trigger] members[i]) by {
        assert(ids.contains(layer[i]));
        let j = choose|j: int| 0 <= j < ids.len() && ids[j] == layer[i];
        assert(vs[j] == members[i]);
    }
    assert(members.no_duplicates()) by {
        assert forall|i: int, j: int| 0 <= i < members.len() && 0 <= j < members.len() && i != j implies members[i] != members[j] by {
            assert(layer[i] != layer[j]);
        }
    }
}

/// Every layer of a valid design's layered graph, each vertex with the
/// containers around it, can be ordered by sort keys.
#[verifier::spinoff_prover]
pub proof fn law_graph_layers_are_orderable(d: DesignView, k: int)
    requires
        crate::validation::spec_is_valid(d),
        0 <= k < ranked(vertex_ids(vertices(d)), broken(design_arcs(d))).len(),
    ensures
        crate::layer_order::orderable(with_paths(d, ranked(vertex_ids(vertices(d)), broken(design_arcs(d)))[k])),
        crate::layer_order::consistent_paths(with_paths(d, ranked(vertex_ids(vertices(d)), broken(design_arcs(d)))[k])),
{
    lemma_layer_members(d, broken(design_arcs(d)), k);
    law_layer_vertices_are_orderable(d, with_paths(d, ranked(vertex_ids(vertices(d)), broken(design_arcs(d)))[k]));
}
} // verus!
