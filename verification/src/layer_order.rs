//! The order of the vertices within one layer after a sweep. Each vertex
//! has a sort key: for each container around it, outermost first, the rank
//! of that container's group and the container's id, and last its own rank
//! and id. Keys compare entry by entry, by rank and then by id. Because a
//! container's entry is the same in every key that holds it, the vertices
//! inside a container form one run at every depth.

use vstd::prelude::*;

use crate::id_map::{lookup, IdMap};
use crate::layers::{vertex_views, Vertex};
use crate::text::{lemma_lex_asymmetric, lemma_lex_irreflexive, lemma_lex_total, lemma_lex_transitive, lex_lt, str_eq, str_lt};

verus! {

/// One key entry comes before another: by rank, then by id.
pub open spec fn entry_lt(a: (u64, Seq<char>), b: (u64, Seq<char>)) -> bool {
    a.0 < b.0 || (a.0 == b.0 && lex_lt(a.1, b.1))
}

/// Key `a` of the vertex `ia` comes before key `b` of the vertex `ib`: the
/// first entry where they differ decides; when one key runs out first, the
/// vertex ids decide.
pub open spec fn keys_before(a: Seq<(u64, Seq<char>)>, b: Seq<(u64, Seq<char>)>, ia: Seq<char>, ib: Seq<char>) -> bool
    decreases a.len(),
{
    if a.len() == 0 || b.len() == 0 {
        lex_lt(ia, ib)
    } else if a[0] != b[0] {
        entry_lt(a[0], b[0])
    } else {
        keys_before(a.drop_first(), b.drop_first(), ia, ib)
    }
}

/// The rank of the group of the container `id`.
pub open spec fn group_rank(groups: Seq<(Seq<char>, u64)>, id: Seq<char>) -> u64 {
    match lookup(groups, id) {
        Some(rank) => rank,
        None => 0,
    }
}

/// The sort key of a vertex with its own rank `score`.
pub open spec fn sort_key(v: (Seq<char>, Seq<Seq<char>>), score: u64, groups: Seq<(Seq<char>, u64)>) -> Seq<(u64, Seq<char>)> {
    v.1.map_values(|a: Seq<char>| (group_rank(groups, a), a)).push((score, v.0))
}

/// Vertex `i` of the layer comes before vertex `j`.
pub open spec fn placed_before(
    layer: Seq<(Seq<char>, Seq<Seq<char>>)>,
    scores: Seq<u64>,
    groups: Seq<(Seq<char>, u64)>,
    i: int,
    j: int,
) -> bool {
    keys_before(sort_key(layer[i], scores[i], groups), sort_key(layer[j], scores[j], groups), layer[i].0, layer[j].0)
}

/// `order` lists each position of the layer once, each before the next.
pub open spec fn is_layer_order(
    layer: Seq<(Seq<char>, Seq<Seq<char>>)>,
    scores: Seq<u64>,
    groups: Seq<(Seq<char>, u64)>,
    order: Seq<usize>,
) -> bool {
    &&& order.len() == layer.len()
    &&& forall|k: int| 0 <= k < order.len() ==> #[trigger] order[k] < layer.len()
    &&& forall|a: int, b: int| 0 <= a < b < order.len() ==> placed_before(layer, scores, groups, #[trigger] order[a] as int, #[trigger] order[b] as int)
    &&& forall|i: usize| i < layer.len() ==> #[trigger] order.contains(i)
}

/// The vertices of a layer have distinct ids and none lies inside another.
pub open spec fn orderable(layer: Seq<(Seq<char>, Seq<Seq<char>>)>) -> bool {
    &&& forall|i: int, j: int| 0 <= i < layer.len() && 0 <= j < layer.len() && i != j ==> (#[trigger] layer[i]).0 != (#[trigger] layer[j]).0
    &&& forall|i: int, j: int| 0 <= i < layer.len() && 0 <= j < layer.len() && i != j ==> !(#[trigger] layer[j]).1.contains((#[trigger] layer[i]).0)
}

/// A container's ancestors are the same in every path that holds it.
pub open spec fn consistent_paths(layer: Seq<(Seq<char>, Seq<Seq<char>>)>) -> bool {
    forall|v: int, w: int, i: int, j: int|
        0 <= v < layer.len() && 0 <= w < layer.len() && 0 <= i < layer[v].1.len() && 0 <= j < layer[w].1.len()
            && #[trigger] layer[v].1[i] == #[trigger] layer[w].1[j] ==> i == j && layer[v].1.take(i) == layer[w].1.take(j)
}

// ---------------------------------------------------------------------------
// The key order

proof fn lemma_entry_order(a: (u64, Seq<char>), b: (u64, Seq<char>), c: (u64, Seq<char>))
    ensures
        a != b ==> entry_lt(a, b) || entry_lt(b, a),
        entry_lt(a, b) ==> !entry_lt(b, a) && a != b,
        entry_lt(a, b) && entry_lt(b, c) ==> entry_lt(a, c),
{
    lemma_lex_total(a.1, b.1);
    if entry_lt(a, b) && a.0 == b.0 {
        lemma_lex_asymmetric(a.1, b.1);
    }
    if entry_lt(a, b) && entry_lt(b, c) && a.0 == b.0 && b.0 == c.0 {
        lemma_lex_transitive(a.1, b.1, c.1);
    }
    if a == b {
        lemma_lex_irreflexive(a.1);
    }
}

/// Keys that agree before position `m` and differ at it are ordered by their entries there.
proof fn lemma_keys_decided(a: Seq<(u64, Seq<char>)>, b: Seq<(u64, Seq<char>)>, ia: Seq<char>, ib: Seq<char>, m: int)
    requires
        0 <= m < a.len(),
        m < b.len(),
        forall|k: int| 0 <= k < m ==> a[k] == b[k],
        a[m] != b[m],
    ensures
        keys_before(a, b, ia, ib) == entry_lt(a[m], b[m]),
    decreases m,
{
    if m > 0 {
        assert(a[0] == b[0]);
        lemma_keys_decided(a.drop_first(), b.drop_first(), ia, ib, m - 1);
    }
}

/// No key comes before itself.
proof fn lemma_keys_irreflexive(a: Seq<(u64, Seq<char>)>, ia: Seq<char>)
    ensures
        !keys_before(a, a, ia, ia),
    decreases a.len(),
{
    if a.len() == 0 {
        lemma_lex_irreflexive(ia);
    } else {
        lemma_keys_irreflexive(a.drop_first(), ia);
    }
}

/// The first position at or after `k` where two keys differ.
proof fn lemma_first_difference(a: Seq<(u64, Seq<char>)>, b: Seq<(u64, Seq<char>)>, k: int) -> (m: int)
    requires
        0 <= k,
        forall|j: int| 0 <= j < k ==> a[j] == b[j],
        exists|d: int| k <= d < a.len() && d < b.len() && a[d] != b[d],
    ensures
        k <= m < a.len(),
        m < b.len(),
        a[m] != b[m],
        forall|j: int| 0 <= j < m ==> a[j] == b[j],
    decreases a.len() - k,
{
    if a[k] != b[k] {
        k
    } else {
        let d = choose|d: int| k <= d < a.len() && d < b.len() && a[d] != b[d];
        assert(d != k);
        lemma_first_difference(a, b, k + 1)
    }
}

/// Keys that differ within their common length are ordered one way only.
proof fn lemma_keys_pair(a: Seq<(u64, Seq<char>)>, b: Seq<(u64, Seq<char>)>, ia: Seq<char>, ib: Seq<char>)
    requires
        exists|d: int| 0 <= d < a.len() && d < b.len() && a[d] != b[d],
    ensures
        keys_before(a, b, ia, ib) || keys_before(b, a, ib, ia),
        !(keys_before(a, b, ia, ib) && keys_before(b, a, ib, ia)),
{
    let m = lemma_first_difference(a, b, 0);
    lemma_keys_decided(a, b, ia, ib, m);
    lemma_keys_decided(b, a, ib, ia, m);
    lemma_entry_order(a[m], b[m], a[m]);
}

/// The order of keys that differ within their common lengths is transitive.
proof fn lemma_keys_transitive(
    a: Seq<(u64, Seq<char>)>,
    b: Seq<(u64, Seq<char>)>,
    c: Seq<(u64, Seq<char>)>,
    ia: Seq<char>,
    ib: Seq<char>,
    ic: Seq<char>,
)
    requires
        exists|d: int| 0 <= d < a.len() && d < b.len() && a[d] != b[d],
        exists|d: int| 0 <= d < b.len() && d < c.len() && b[d] != c[d],
        keys_before(a, b, ia, ib),
        keys_before(b, c, ib, ic),
    ensures
        keys_before(a, c, ia, ic),
{
    let m1 = lemma_first_difference(a, b, 0);
    let m2 = lemma_first_difference(b, c, 0);
    lemma_keys_decided(a, b, ia, ib, m1);
    lemma_keys_decided(b, c, ib, ic, m2);
    if m1 < m2 {
        lemma_keys_decided(a, c, ia, ic, m1);
    } else if m2 < m1 {
        lemma_keys_decided(a, c, ia, ic, m2);
    } else {
        lemma_entry_order(a[m1], b[m1], c[m1]);
        lemma_entry_order(a[m1], c[m1], a[m1]);
        lemma_keys_decided(a, c, ia, ic, m1);
    }
}

/// Two vertices of an orderable layer have keys that differ within their common length.
proof fn lemma_keys_differ(
    layer: Seq<(Seq<char>, Seq<Seq<char>>)>,
    scores: Seq<u64>,
    groups: Seq<(Seq<char>, u64)>,
    i: int,
    j: int,
)
    requires
        orderable(layer),
        0 <= i < layer.len(),
        0 <= j < layer.len(),
        i != j,
    ensures
        exists|d: int| 0 <= d < sort_key(layer[i], scores[i], groups).len() && d < sort_key(layer[j], scores[j], groups).len()
            && sort_key(layer[i], scores[i], groups)[d] != sort_key(layer[j], scores[j], groups)[d],
{
    let ki = sort_key(layer[i], scores[i], groups);
    let kj = sort_key(layer[j], scores[j], groups);
    let (short, long, s, l) = if ki.len() <= kj.len() { (ki, kj, i, j) } else { (kj, ki, j, i) };
    let last = short.len() - 1;
    assert(short[last] == (scores[s], layer[s].0));
    if last == long.len() - 1 {
        assert(long[last] == (scores[l], layer[l].0));
        assert(layer[s].0 != layer[l].0);
    } else {
        assert(long[last] == (group_rank(groups, layer[l].1[last]), layer[l].1[last]));
        assert(!layer[l].1.contains(layer[s].0));
        assert(short[last] != long[last]);
    }
    assert(ki[last] != kj[last]);
}

/// Within an orderable layer, placement is transitive.
proof fn lemma_placed_order(
    layer: Seq<(Seq<char>, Seq<Seq<char>>)>,
    scores: Seq<u64>,
    groups: Seq<(Seq<char>, u64)>,
    i: int,
    j: int,
    k: int,
)
    requires
        orderable(layer),
        0 <= i < layer.len(),
        0 <= j < layer.len(),
        0 <= k < layer.len(),
        i != j,
        j != k,
        placed_before(layer, scores, groups, i, j),
        placed_before(layer, scores, groups, j, k),
    ensures
        placed_before(layer, scores, groups, i, k),
{
    lemma_keys_differ(layer, scores, groups, i, j);
    lemma_keys_differ(layer, scores, groups, j, k);
    lemma_keys_transitive(
        sort_key(layer[i], scores[i], groups),
        sort_key(layer[j], scores[j], groups),
        sort_key(layer[k], scores[k], groups),
        layer[i].0,
        layer[j].0,
        layer[k].0,
    );
}

/// Placement of two vertices of an orderable layer is one way only.
proof fn lemma_placed_pair(
    layer: Seq<(Seq<char>, Seq<Seq<char>>)>,
    scores: Seq<u64>,
    groups: Seq<(Seq<char>, u64)>,
    i: int,
    j: int,
)
    requires
        orderable(layer),
        0 <= i < layer.len(),
        0 <= j < layer.len(),
        i != j,
    ensures
        placed_before(layer, scores, groups, i, j) || placed_before(layer, scores, groups, j, i),
        !(placed_before(layer, scores, groups, i, j) && placed_before(layer, scores, groups, j, i)),
{
    lemma_keys_differ(layer, scores, groups, i, j);
    lemma_keys_pair(sort_key(layer[i], scores[i], groups), sort_key(layer[j], scores[j], groups), layer[i].0, layer[j].0);
}

/// No vertex is placed before itself.
proof fn lemma_placed_irreflexive(
    layer: Seq<(Seq<char>, Seq<Seq<char>>)>,
    scores: Seq<u64>,
    groups: Seq<(Seq<char>, u64)>,
    i: int,
)
    ensures
        !placed_before(layer, scores, groups, i, i),
{
    lemma_keys_irreflexive(sort_key(layer[i], scores[i], groups), layer[i].0);
}

// ---------------------------------------------------------------------------
// Ordering a layer

/// Entry `k` of a vertex's sort key.
fn key_entry<'a>(v: &'a Vertex, score: u64, groups: &IdMap<u64>, k: usize) -> (e: (u64, &'a str))
    requires
        k <= v.path.len(),
    ensures
        (e.0, e.1@) == sort_key(v@, score, groups@)[k as int],
{
    if k < v.path.len() {
        let rank = match groups.get(v.path[k].as_str()) {
            Some(rank) => rank,
            None => 0,
        };
        (rank, v.path[k].as_str())
    } else {
        (score, v.id.as_str())
    }
}

/// Whether vertex `i` of the layer comes before vertex `j`.
fn key_before(layer: &Vec<Vertex>, scores: &Vec<u64>, groups: &IdMap<u64>, i: usize, j: usize) -> (before: bool)
    requires
        i < layer.len(),
        j < layer.len(),
        scores.len() == layer.len(),
        layer@[i as int].path.len() < usize::MAX,
        layer@[j as int].path.len() < usize::MAX,
    ensures
        before == placed_before(vertex_views(layer@), scores@, groups@, i as int, j as int),
{
    let ghost vs = vertex_views(layer@);
    let a = &layer[i];
    let b = &layer[j];
    let ghost ka = sort_key(vs[i as int], scores@[i as int], groups@);
    let ghost kb = sort_key(vs[j as int], scores@[j as int], groups@);
    proof {
        assert(vs[i as int] == a@);
        assert(vs[j as int] == b@);
        assert(ka.skip(0) =~= ka);
        assert(kb.skip(0) =~= kb);
    }
    let mut k: usize = 0;
    while k <= a.path.len() && k <= b.path.len()
        invariant
            scores.len() == layer.len(),
            i < layer.len(),
            j < layer.len(),
            vs == vertex_views(layer@),
            vs.len() == layer.len(),
            vs[i as int] == a@,
            vs[j as int] == b@,
            ka == sort_key(a@, scores@[i as int], groups@),
            kb == sort_key(b@, scores@[j as int], groups@),
            ka.len() == a.path.len() + 1,
            kb.len() == b.path.len() + 1,
            a.path.len() < usize::MAX,
            b.path.len() < usize::MAX,
            k <= ka.len(),
            k <= kb.len(),
            keys_before(ka, kb, a.id@, b.id@) == keys_before(ka.skip(k as int), kb.skip(k as int), a.id@, b.id@),
        decreases ka.len() - k,
    {
        let (ra, sa) = key_entry(a, scores[i], groups, k);
        let (rb, sb) = key_entry(b, scores[j], groups, k);
        proof {
            assert(ka.skip(k as int)[0] == ka[k as int]);
            assert(kb.skip(k as int)[0] == kb[k as int]);
            assert(ka.skip(k as int).drop_first() =~= ka.skip(k + 1));
            assert(kb.skip(k as int).drop_first() =~= kb.skip(k + 1));
        }
        if ra != rb || !str_eq(sa, sb) {
            let lt = str_lt(sa, sb);
            proof {
                assert(ka.skip(k as int).len() > 0 && kb.skip(k as int).len() > 0);
                assert(ka[k as int] != kb[k as int]);
                assert(keys_before(ka.skip(k as int), kb.skip(k as int), a.id@, b.id@) == entry_lt(ka[k as int], kb[k as int]));
                assert(vs[i as int].0 == a.id@ && vs[j as int].0 == b.id@);
            }
            return ra < rb || (ra == rb && lt);
        }
        k = k + 1;
    }
    str_lt(a.id.as_str(), b.id.as_str())
}

/// The order of a layer's vertices after a sweep, given each vertex's own
/// rank and the rank of each container's group: by the keys of the
/// vertices, so that a container's vertices stay together.
pub fn order_layer(layer: &Vec<Vertex>, scores: &Vec<u64>, groups: &IdMap<u64>) -> (order: Vec<usize>)
    requires
        scores.len() == layer.len(),
        orderable(vertex_views(layer@)),
        forall|i: int| 0 <= i < layer.len() ==> (#[trigger] layer@[i]).path.len() < usize::MAX,
    ensures
        is_layer_order(vertex_views(layer@), scores@, groups@, order@),
{
    let ghost vs = vertex_views(layer@);
    let mut order: Vec<usize> = Vec::new();
    for i in 0..layer.len()
        invariant
            vs == vertex_views(layer@),
            scores.len() == layer.len(),
            orderable(vs),
            forall|m: int| 0 <= m < layer.len() ==> (#[trigger] layer@[m]).path.len() < usize::MAX,
            order.len() == i,
            forall|k: int| 0 <= k < order.len() ==> #[trigger] order@[k] < i,
            forall|a: int, b: int| 0 <= a < b < order.len() ==> placed_before(vs, scores@, groups@, #[trigger] order@[a] as int, #[trigger] order@[b] as int),
            forall|m: usize| m < i ==> #[trigger] order@.contains(m),
    {
        let mut pos: usize = 0;
        while pos < order.len() && !key_before(layer, scores, groups, i, order[pos])
            invariant
                vs == vertex_views(layer@),
                scores.len() == layer.len(),
                i < layer.len(),
                pos <= order.len(),
                forall|k: int| 0 <= k < order.len() ==> #[trigger] order@[k] < i,
                forall|m: int| 0 <= m < layer.len() ==> (#[trigger] layer@[m]).path.len() < usize::MAX,
                forall|p: int| 0 <= p < pos ==> !placed_before(vs, scores@, groups@, i as int, #[trigger] order@[p] as int),
            decreases order.len() - pos,
        {
            pos = pos + 1;
        }
        let ghost before = order@;
        order.insert(pos, i);
        proof {
            let after = order@;
            assert(after =~= before.insert(pos as int, i));
            assert forall|p: int| 0 <= p < pos implies placed_before(vs, scores@, groups@, #[trigger] before[p] as int, i as int) by {
                lemma_placed_pair(vs, scores@, groups@, before[p] as int, i as int);
            }
            if pos < before.len() {
                assert(placed_before(vs, scores@, groups@, i as int, before[pos as int] as int));
                assert forall|p: int| pos < p < before.len() implies placed_before(vs, scores@, groups@, i as int, #[trigger] before[p] as int) by {
                    assert(placed_before(vs, scores@, groups@, before[pos as int] as int, before[p] as int));
                    lemma_placed_irreflexive(vs, scores@, groups@, before[p] as int);
                    lemma_placed_order(vs, scores@, groups@, i as int, before[pos as int] as int, before[p] as int);
                }
            }
            assert forall|a: int, b: int| 0 <= a < b < after.len() implies placed_before(vs, scores@, groups@, #[trigger] after[a] as int, #[trigger] after[b] as int) by {
                if b < pos {
                    assert(after[a] == before[a] && after[b] == before[b]);
                } else if b == pos {
                    assert(after[a] == before[a]);
                } else if a < pos {
                    assert(after[a] == before[a] && after[b] == before[b - 1]);
                    assert(placed_before(vs, scores@, groups@, before[a] as int, i as int));
                    assert(placed_before(vs, scores@, groups@, i as int, before[b - 1] as int));
                    lemma_placed_order(vs, scores@, groups@, before[a] as int, i as int, before[b - 1] as int);
                } else if a == pos {
                    assert(after[b] == before[b - 1]);
                } else {
                    assert(after[a] == before[a - 1] && after[b] == before[b - 1]);
                }
            }
            assert forall|m: usize| m < i + 1 implies #[trigger] after.contains(m) by {
                if m == i {
                    assert(after[pos as int] == i);
                } else {
                    assert(before.contains(m));
                    let c = choose|c: int| 0 <= c < before.len() && before[c] == m;
                    if c < pos {
                        assert(after[c] == m);
                    } else {
                        assert(after[c + 1] == m);
                    }
                }
            }
            assert forall|k: int| 0 <= k < after.len() implies #[trigger] after[k] < i + 1 by {
                if k < pos {
                    assert(after[k] == before[k]);
                } else if k > pos {
                    assert(after[k] == before[k - 1]);
                }
            }
        }
    }
    order
}

// ---------------------------------------------------------------------------
// Containers stay together

/// The key entries of a vertex before position `i` of its path are the
/// entries of the containers before it.
proof fn lemma_key_prefix(v: (Seq<char>, Seq<Seq<char>>), score: u64, groups: Seq<(Seq<char>, u64)>, i: int)
    requires
        0 <= i < v.1.len(),
    ensures
        forall|k: int| 0 <= k <= i ==> #[trigger] sort_key(v, score, groups)[k] == (group_rank(groups, v.1[k]), v.1[k]),
{
}

/// In a layer ordered by sort keys, the vertices inside any container form
/// one run: a vertex placed between two vertices inside a container is
/// inside it too.
pub proof fn law_layer_order_keeps_containers_together(
    layer: Seq<(Seq<char>, Seq<Seq<char>>)>,
    scores: Seq<u64>,
    groups: Seq<(Seq<char>, u64)>,
    order: Seq<usize>,
    container: Seq<char>,
    p: int,
    q: int,
    r: int,
)
    requires
        orderable(layer),
        consistent_paths(layer),
        scores.len() == layer.len(),
        is_layer_order(layer, scores, groups, order),
        0 <= p < q < r < order.len(),
        layer[order[p] as int].1.contains(container),
        layer[order[r] as int].1.contains(container),
    ensures
        layer[order[q] as int].1.contains(container),
{
    let (x, y, z) = (order[p] as int, order[q] as int, order[r] as int);
    let kx = sort_key(layer[x], scores[x], groups);
    let ky = sort_key(layer[y], scores[y], groups);
    let kz = sort_key(layer[z], scores[z], groups);
    let i = choose|i: int| 0 <= i < layer[x].1.len() && layer[x].1[i] == container;
    let j = choose|j: int| 0 <= j < layer[z].1.len() && layer[z].1[j] == container;
    assert(i == j && layer[x].1.take(i) == layer[z].1.take(j));
    lemma_key_prefix(layer[x], scores[x], groups, i);
    lemma_key_prefix(layer[z], scores[z], groups, i);
    assert forall|k: int| 0 <= k <= i implies kx[k] == kz[k] by {
        if k < i {
            assert(layer[x].1[k] == layer[x].1.take(i)[k]);
            assert(layer[z].1[k] == layer[z].1.take(i)[k]);
        }
    }
    assert(placed_before(layer, scores, groups, x, y));
    assert(placed_before(layer, scores, groups, y, z));
    assert(x != y && y != z) by {
        lemma_keys_irreflexive(kx, layer[x].0);
        lemma_keys_irreflexive(ky, layer[y].0);
    }
    if exists|d: int| 0 <= d <= i && d < ky.len() && ky[d] != kx[d] {
        let d = choose|d: int| 0 <= d <= i && d < ky.len() && ky[d] != kx[d];
        assert(kx[d] != ky[d]);
        let m = lemma_first_difference(kx, ky, 0);
        assert(m <= d) by {
            if m > d {
                assert(kx[d] == ky[d]);
            }
        }
        assert(ky[m] != kz[m]);
        let m2 = lemma_first_difference(ky, kz, 0);
        assert(m2 == m) by {
            if m2 < m {
                assert(ky[m2] == kx[m2]);
                assert(kx[m2] == kz[m2]);
            }
            if m2 > m {
                assert(ky[m] == kz[m]);
            }
        }
        lemma_keys_decided(kx, ky, layer[x].0, layer[y].0, m);
        lemma_keys_decided(ky, kz, layer[y].0, layer[z].0, m);
        lemma_entry_order(kx[m], ky[m], kx[m]);
        assert(false);
    }
    if ky.len() <= i {
        let last = ky.len() - 1;
        assert(ky[last] == kx[last]);
        assert(ky[last] == (scores[y], layer[y].0));
        assert(kx[last] == (group_rank(groups, layer[x].1[last]), layer[x].1[last]));
        assert(layer[x].1.contains(layer[y].0));
        assert(false);
    }
    assert(ky[i] == kx[i]);
    if i == ky.len() - 1 {
        assert(ky[i] == (scores[y], layer[y].0));
        assert(layer[x].1.contains(layer[y].0));
        assert(false);
    }
    assert(ky[i] == (group_rank(groups, layer[y].1[i]), layer[y].1[i]));
    assert(layer[y].1[i] == container);
}

} // verus!
