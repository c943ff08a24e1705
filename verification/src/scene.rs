//! The viewer's drawing decisions that need no geometry: what kind of shape
//! an element is, the order containers paint in, how parallel edges fan out,
//! and what a hover highlights.

use vstd::prelude::*;

use crate::edit::{container_ids, sorted_by_id};
use crate::layers::chain;
use crate::model::{ContainerView, Design, DesignView, EdgeKind, EdgeView, NodeKind};
use crate::text::{lex_lt, str_eq, str_lt};
use crate::validation::{parent_index, parent_of, parent_pairs};

verus! {

/// What an element is drawn as.
#[derive(Clone, Copy, Debug, PartialEq, Eq, Structural)]
pub enum ShapeKind {
    Container,
    Node(NodeKind),
    Edge(EdgeKind),
    Note,
}

/// Whether the shape `id`, an edge between `endpoints` when it is one, lights
/// up while `hovered` is under the cursor: the hovered element itself and
/// every edge touching it.
pub fn highlighted(id: &str, endpoints: &Option<(String, String)>, hovered: Option<&str>) -> (lit: bool)
    ensures
        lit == (hovered matches Some(h) && (id@ == h@ || (endpoints matches Some((from, to)) && (from@ == h@ || to@ == h@)))),
{
    match hovered {
        None => false,
        Some(h) => str_eq(id, h) || match endpoints {
            Some((from, to)) => str_eq(from.as_str(), h) || str_eq(to.as_str(), h),
            None => false,
        },
    }
}

// ---------------------------------------------------------------------------
// Parallel edges

/// Two edges join the same two elements, in either direction.
pub open spec fn same_pair(a: EdgeView, b: EdgeView) -> bool {
    (a.from == b.from && a.to == b.to) || (a.from == b.to && a.to == b.from)
}

/// How many of `es` join the same two elements as `e`.
pub open spec fn pair_count(es: Seq<EdgeView>, e: EdgeView) -> nat
    decreases es.len(),
{
    if es.len() == 0 {
        0
    } else {
        pair_count(es.drop_last(), e) + if same_pair(es.last(), e) { 1nat } else { 0nat }
    }
}

/// How many of `es` join the same two elements as `e` and have a smaller id.
pub open spec fn pair_rank(es: Seq<EdgeView>, e: EdgeView) -> nat
    decreases es.len(),
{
    if es.len() == 0 {
        0
    } else {
        pair_rank(es.drop_last(), e) + if same_pair(es.last(), e) && lex_lt(es.last().id, e.id) { 1nat } else { 0nat }
    }
}

/// The sideways offset of `e`'s route among the edges joining the same two
/// elements: they are spread 56 units apart in id order, centred on the
/// straight line.
pub open spec fn edge_offset(es: Seq<EdgeView>, e: EdgeView) -> int {
    56 * pair_rank(es, e) - 28 * (pair_count(es, e) - 1)
}

/// The sideways offset of each edge's route, in the design's edge order.
pub fn edge_offsets(design: &Design) -> (offsets: Vec<i128>)
    ensures
        offsets.len() == design.edges.len(),
        forall|i: int| 0 <= i < offsets.len() ==> offsets@[i] == edge_offset(design@.edges, #[trigger] design@.edges[i]),
{
    let ghost es = design@.edges;
    let n = design.edges.len();
    let mut offsets: Vec<i128> = Vec::new();
    for i in 0..n
        invariant
            es == design@.edges,
            n == es.len(),
            offsets.len() == i,
            forall|j: int| 0 <= j < i ==> offsets@[j] == edge_offset(es, #[trigger] es[j]),
    {
        let e = &design.edges[i];
        let mut count: u64 = 0;
        let mut rank: u64 = 0;
        for j in 0..n
            invariant
                es == design@.edges,
                n == es.len(),
                i < n,
                e@ == es[i as int],
                count == pair_count(es.take(j as int), e@),
                rank == pair_rank(es.take(j as int), e@),
                rank <= count <= j,
        {
            let f = &design.edges[j];
            proof {
                assert(es.take(j + 1).drop_last() =~= es.take(j as int));
                assert(es.take(j + 1).last() == f@);
            }
            let same = (str_eq(f.from.as_str(), e.from.as_str()) && str_eq(f.to.as_str(), e.to.as_str()))
                || (str_eq(f.from.as_str(), e.to.as_str()) && str_eq(f.to.as_str(), e.from.as_str()));
            if same {
                count = count + 1;
                if str_lt(f.id.as_str(), e.id.as_str()) {
                    rank = rank + 1;
                }
            }
        }
        proof {
            assert(es.take(n as int) =~= es);
        }
        let offset: i128 = 56 * (rank as i128) - 28 * ((count as i128) - 1);
        offsets.push(offset);
    }
    offsets
}

proof fn lemma_same_pair_count(es: Seq<EdgeView>, a: EdgeView, b: EdgeView)
    requires
        same_pair(a, b),
    ensures
        pair_count(es, a) == pair_count(es, b),
    decreases es.len(),
{
    if es.len() > 0 {
        lemma_same_pair_count(es.drop_last(), a, b);
    }
}

/// No edge of `e`'s group has a smaller id: `e` has rank 0.
proof fn lemma_least_rank(es: Seq<EdgeView>, e: EdgeView)
    requires
        forall|k: int| 0 <= k < es.len() && same_pair(#[trigger] es[k], e) ==> !lex_lt(es[k].id, e.id),
    ensures
        pair_rank(es, e) == 0,
    decreases es.len(),
{
    if es.len() > 0 {
        assert forall|k: int| 0 <= k < es.drop_last().len() && same_pair(#[trigger] es.drop_last()[k], e) implies !lex_lt(es.drop_last()[k].id, e.id) by {
            assert(es.drop_last()[k] == es[k]);
        }
        lemma_least_rank(es.drop_last(), e);
        assert(es.last() == es[es.len() - 1]);
    }
}

/// Every edge of `e`'s group but the one at `j` has a smaller id: `e`'s
/// rank counts all of them.
proof fn lemma_greatest_rank(es: Seq<EdgeView>, e: EdgeView, j: int)
    requires
        forall|k: int| 0 <= k < es.len() && k != j && same_pair(#[trigger] es[k], e) ==> lex_lt(es[k].id, e.id),
    ensures
        pair_rank(es, e) + (if 0 <= j < es.len() && same_pair(es[j], e) && !lex_lt(es[j].id, e.id) { 1int } else { 0int })
            == pair_count(es, e),
    decreases es.len(),
{
    if es.len() > 0 {
        let rest = es.drop_last();
        assert forall|k: int| 0 <= k < rest.len() && k != j && same_pair(#[trigger] rest[k], e) implies lex_lt(rest[k].id, e.id) by {
            assert(rest[k] == es[k]);
        }
        lemma_greatest_rank(rest, e, j);
        assert(es.last() == es[es.len() - 1]);
        if 0 <= j < rest.len() {
            assert(rest[j] == es[j]);
        }
    }
}

/// Parallel edges fan out symmetrically about the straight line: among the
/// `n` edges joining the same two elements, the one with the least id is
/// offset by `-28 * (n - 1)` and the one with the greatest id by
/// `28 * (n - 1)`, so the two outermost routes mirror each other, and every
/// route lies between them.
pub proof fn law_parallel_edges_fan_out_symmetrically(es: Seq<EdgeView>, offsets: Seq<i128>, i: int, j: int)
    requires
        offsets.len() == es.len(),
        forall|k: int| 0 <= k < offsets.len() ==> offsets[k] == edge_offset(es, #[trigger] es[k]),
        0 <= i < es.len(),
        0 <= j < es.len(),
        same_pair(es[i], es[j]),
        forall|k: int| 0 <= k < es.len() && k != i && same_pair(#[trigger] es[k], es[i]) ==> lex_lt(es[i].id, es[k].id),
        forall|k: int| 0 <= k < es.len() && k != j && same_pair(#[trigger] es[k], es[j]) ==> lex_lt(es[k].id, es[j].id),
    ensures
        offsets[i] == -28 * (pair_count(es, es[i]) - 1),
        offsets[j] == 28 * (pair_count(es, es[i]) - 1),
        offsets[i] + offsets[j] == 0,
        forall|k: int| 0 <= k < es.len() && same_pair(#[trigger] es[k], es[i]) ==> offsets[i] <= offsets[k] <= offsets[j],
{
    let n = pair_count(es, es[i]);
    lemma_same_pair_count(es, es[i], es[j]);
    assert forall|k: int| 0 <= k < es.len() && same_pair(#[trigger] es[k], es[i]) implies !lex_lt(es[k].id, es[i].id) by {
        if k == i {
            crate::text::lemma_lex_irreflexive(es[i].id);
        } else {
            crate::text::lemma_lex_asymmetric(es[i].id, es[k].id);
        }
    }
    lemma_least_rank(es, es[i]);
    crate::text::lemma_lex_irreflexive(es[j].id);
    lemma_greatest_rank(es, es[j], j);
    assert forall|k: int| 0 <= k < es.len() && same_pair(#[trigger] es[k], es[i]) implies offsets[i] <= offsets[k] <= offsets[j] by {
        lemma_same_pair_count(es, es[k], es[i]);
        lemma_rank_below_count(es, es[k], k);
    }
}

/// An edge of `es` has fewer group members with a smaller id than its group has members.
proof fn lemma_rank_below_count(es: Seq<EdgeView>, e: EdgeView, at: int)
    requires
        0 <= at < es.len(),
        es[at] == e,
    ensures
        pair_rank(es, e) < pair_count(es, e),
    decreases es.len(),
{
    crate::text::lemma_lex_irreflexive(e.id);
    if at < es.len() - 1 {
        assert(es.drop_last()[at] == e);
        lemma_rank_below_count(es.drop_last(), e, at);
    } else {
        lemma_rank_at_most_count(es.drop_last(), e);
    }
}

proof fn lemma_rank_at_most_count(es: Seq<EdgeView>, e: EdgeView)
    ensures
        pair_rank(es, e) <= pair_count(es, e),
    decreases es.len(),
{
    if es.len() > 0 {
        lemma_rank_at_most_count(es.drop_last(), e);
    }
}

// ---------------------------------------------------------------------------
// Paint order

/// How many containers enclose the container `c`.
pub open spec fn container_depth(d: DesignView, c: ContainerView) -> nat {
    chain(parent_pairs(d.containers), c.parent, d.containers.len() + 1).len()
}

/// The containers of `cs` at depth `k`, in order.
pub open spec fn at_depth(d: DesignView, cs: Seq<ContainerView>, k: nat) -> Seq<ContainerView>
    decreases cs.len(),
{
    if cs.len() == 0 {
        Seq::empty()
    } else {
        at_depth(d, cs.drop_last(), k) + if container_depth(d, cs.last()) == k {
            seq![cs.last()]
        } else {
            Seq::empty()
        }
    }
}

/// The containers of `cs` at depths up to `k`, shallower ones first.
pub open spec fn by_depth(d: DesignView, cs: Seq<ContainerView>, k: nat) -> Seq<ContainerView>
    decreases k,
{
    if k == 0 {
        at_depth(d, cs, 0)
    } else {
        by_depth(d, cs, (k - 1) as nat) + at_depth(d, cs, k)
    }
}

/// The greatest depth among `cs`.
pub open spec fn deepest(d: DesignView, cs: Seq<ContainerView>) -> nat
    decreases cs.len(),
{
    if cs.len() == 0 {
        0
    } else {
        let rest = deepest(d, cs.drop_last());
        let k = container_depth(d, cs.last());
        if k > rest {
            k
        } else {
            rest
        }
    }
}

/// The order containers paint in: outer ones before the ones inside them,
/// by depth and then by id.
pub open spec fn paint_order(d: DesignView) -> Seq<ContainerView> {
    let cs = sorted_by_id(d.containers, container_ids(d.containers));
    by_depth(d, cs, deepest(d, cs))
}

/// The containers of a valid design in paint order: by depth, then by id.
pub fn containers_in_paint_order(design: &Design) -> (order: Vec<&crate::model::Container>)
    requires
        crate::validation::spec_is_valid(design@),
    ensures
        order@.map_values(|c: &crate::model::Container| c@) == paint_order(design@),
{
    proof {
        crate::ancestry::law_valid_design_is_acyclic(design@);
    }
    ordered_by_depth(design)
}

fn ordered_by_depth(design: &Design) -> (order: Vec<&crate::model::Container>)
    requires
        crate::ancestry::acyclic(parent_pairs(design@.containers)),
    ensures
        order@.map_values(|c: &crate::model::Container| c@) == paint_order(design@),
{
    let ghost d = design@;
    let index = parent_index(design);
    let sorted = design.list_containers();
    let ghost cs = sorted@.map_values(|c: &crate::model::Container| c@);
    let mut depths: Vec<usize> = Vec::new();
    let mut top: usize = 0;
    proof {
        assert(cs.take(0) =~= Seq::<ContainerView>::empty());
    }
    for i in 0..sorted.len()
        invariant
            d == design@,
            cs == sorted@.map_values(|c: &crate::model::Container| c@),
            crate::validation::indexes_parents(index@, d.containers),
            crate::ancestry::acyclic(parent_pairs(d.containers)),
            depths.len() == i,
            forall|j: int| 0 <= j < i ==> depths@[j] == container_depth(d, #[trigger] cs[j]),
            top == deepest(d, cs.take(i as int)),
    {
        let path = crate::layers::ancestors(&index, design, &sorted[i].parent);
        proof {
            assert(cs[i as int] == sorted@[i as int]@);
            assert(cs.take(i + 1).drop_last() =~= cs.take(i as int));
            assert(cs.take(i + 1).last() == cs[i as int]);
        }
        let k = path.len();
        depths.push(k);
        if k > top {
            top = k;
        }
    }
    proof {
        assert(cs.take(sorted.len() as int) =~= cs);
    }
    let mut order: Vec<&crate::model::Container> = Vec::new();
    let mut k: usize = 0;
    loop
        invariant_except_break
            order@.map_values(|c: &crate::model::Container| c@) == if k == 0 {
                Seq::<ContainerView>::empty()
            } else {
                by_depth(d, cs, (k - 1) as nat)
            },
        invariant
            d == design@,
            cs == sorted@.map_values(|c: &crate::model::Container| c@),
            depths.len() == cs.len(),
            forall|j: int| 0 <= j < cs.len() ==> depths@[j] == container_depth(d, #[trigger] cs[j]),
            k <= top,
            top == deepest(d, cs),
        ensures
            order@.map_values(|c: &crate::model::Container| c@) == by_depth(d, cs, top as nat),
        decreases top - k,
    {
        let ghost before = order@.map_values(|c: &crate::model::Container| c@);
        let ghost level_start = order@.len();
        for i in 0..sorted.len()
            invariant
                cs == sorted@.map_values(|c: &crate::model::Container| c@),
                depths.len() == cs.len(),
                forall|j: int| 0 <= j < cs.len() ==> depths@[j] == container_depth(d, #[trigger] cs[j]),
                order@.map_values(|c: &crate::model::Container| c@) == before + at_depth(d, cs.take(i as int), k as nat),
        {
            proof {
                assert(cs.take(i + 1).drop_last() =~= cs.take(i as int));
                assert(cs.take(i + 1).last() == cs[i as int]);
                assert(cs[i as int] == sorted@[i as int]@);
            }
            let ghost mid = order@.map_values(|c: &crate::model::Container| c@);
            if depths[i] == k {
                order.push(sorted[i]);
                proof {
                    assert(order@.map_values(|c: &crate::model::Container| c@) =~= mid.push(cs[i as int]));
                }
            }
            proof {
                assert(order@.map_values(|c: &crate::model::Container| c@) =~= before + at_depth(d, cs.take(i + 1), k as nat));
            }
        }
        proof {
            assert(cs.take(sorted.len() as int) =~= cs);
            if k == 0 {
                assert(order@.map_values(|c: &crate::model::Container| c@) =~= by_depth(d, cs, 0));
            } else {
                assert(order@.map_values(|c: &crate::model::Container| c@) =~= by_depth(d, cs, k as nat));
            }
        }
        if k == top {
            break;
        }
        k = k + 1;
    }
    proof {
        assert(cs == sorted_by_id(d.containers, container_ids(d.containers)));
    }
    order
}


// ---------------------------------------------------------------------------
// Laws of the paint order

proof fn lemma_at_depth(d: DesignView, cs: Seq<ContainerView>, k: nat)
    ensures
        forall|x: ContainerView| #![trigger at_depth(d, cs, k).contains(x)] #![trigger cs.contains(x)]
            at_depth(d, cs, k).contains(x) <==> cs.contains(x) && container_depth(d, x) == k,
        cs.no_duplicates() ==> at_depth(d, cs, k).no_duplicates(),
    decreases cs.len(),
{
    if cs.len() > 0 {
        let before = cs.drop_last();
        lemma_at_depth(d, before, k);
        let a = at_depth(d, before, k);
        let b = at_depth(d, cs, k);
        assert(b == a + if container_depth(d, cs.last()) == k { seq![cs.last()] } else { Seq::<ContainerView>::empty() });
        assert forall|x: ContainerView| #![trigger b.contains(x)] #![trigger cs.contains(x)]
            b.contains(x) <==> cs.contains(x) && container_depth(d, x) == k by {
            if b.contains(x) {
                let i = choose|i: int| 0 <= i < b.len() && b[i] == x;
                if i < a.len() {
                    assert(b[i] == a[i]);
                    assert(a.contains(x));
                    assert(before.contains(x));
                    let j = choose|j: int| 0 <= j < before.len() && before[j] == x;
                    assert(cs[j] == x);
                } else {
                    assert(x == cs.last());
                    assert(cs[cs.len() - 1] == x);
                }
            }
            if cs.contains(x) && container_depth(d, x) == k {
                let j = choose|j: int| 0 <= j < cs.len() && cs[j] == x;
                if j < before.len() {
                    assert(before[j] == x);
                    assert(before.contains(x));
                    assert(a.contains(x));
                    let i = choose|i: int| 0 <= i < a.len() && a[i] == x;
                    assert(b[i] == x);
                } else {
                    assert(b[b.len() - 1] == x);
                }
            }
        }
        if cs.no_duplicates() {
            assert(before.no_duplicates()) by {
                assert forall|i: int, j: int| 0 <= i < before.len() && 0 <= j < before.len() && i != j implies before[i] != before[j] by {
                    assert(before[i] == cs[i] && before[j] == cs[j]);
                }
            }
            assert(!before.contains(cs.last())) by {
                if before.contains(cs.last()) {
                    let j = choose|j: int| 0 <= j < before.len() && before[j] == cs.last();
                    assert(cs[j] == cs[cs.len() - 1]);
                }
            }
            assert forall|i: int, j: int| 0 <= i < b.len() && 0 <= j < b.len() && i != j implies b[i] != b[j] by {
                if i < a.len() && j < a.len() {
                    assert(b[i] == a[i] && b[j] == a[j]);
                } else if i < a.len() {
                    assert(b[i] == a[i]);
                    assert(a.contains(a[i]));
                } else if j < a.len() {
                    assert(b[j] == a[j]);
                    assert(a.contains(a[j]));
                }
            }
        }
    }
}

/// Listing by depth keeps the containers of each depth up to `k`, shallower ones first.
proof fn lemma_by_depth(d: DesignView, cs: Seq<ContainerView>, k: nat)
    ensures
        forall|x: ContainerView| #![trigger by_depth(d, cs, k).contains(x)] #![trigger cs.contains(x)]
            by_depth(d, cs, k).contains(x) <==> cs.contains(x) && container_depth(d, x) <= k,
        cs.no_duplicates() ==> by_depth(d, cs, k).no_duplicates(),
        forall|i: int, j: int| 0 <= i < j < by_depth(d, cs, k).len() ==>
            container_depth(d, #[trigger] by_depth(d, cs, k)[i]) <= container_depth(d, #[trigger] by_depth(d, cs, k)[j]),
    decreases k,
{
    lemma_at_depth(d, cs, k);
    let b = by_depth(d, cs, k);
    let top = at_depth(d, cs, k);
    if k == 0 {
        assert(b == top);
        assert forall|i: int, j: int| 0 <= i < j < b.len() implies
            container_depth(d, #[trigger] b[i]) <= container_depth(d, #[trigger] b[j]) by {
            assert(top.contains(b[i]) && top.contains(b[j]));
        }
    } else {
        lemma_by_depth(d, cs, (k - 1) as nat);
        let a = by_depth(d, cs, (k - 1) as nat);
        assert(b == a + top);
        assert forall|x: ContainerView| #![trigger b.contains(x)] #![trigger cs.contains(x)]
            b.contains(x) <==> cs.contains(x) && container_depth(d, x) <= k by {
            if b.contains(x) {
                let i = choose|i: int| 0 <= i < b.len() && b[i] == x;
                if i < a.len() {
                    assert(b[i] == a[i]);
                    assert(a.contains(a[i]));
                } else {
                    assert(b[i] == top[i - a.len()]);
                    assert(top.contains(top[i - a.len()]));
                }
            }
            if cs.contains(x) && container_depth(d, x) <= k {
                if container_depth(d, x) < k {
                    assert(a.contains(x));
                    let i = choose|i: int| 0 <= i < a.len() && a[i] == x;
                    assert(b[i] == x);
                } else {
                    assert(top.contains(x));
                    let i = choose|i: int| 0 <= i < top.len() && top[i] == x;
                    assert(b[a.len() + i] == x);
                }
            }
        }
        assert forall|i: int, j: int| 0 <= i < j < b.len() implies
            container_depth(d, #[trigger] b[i]) <= container_depth(d, #[trigger] b[j]) by {
            if j < a.len() {
                assert(b[i] == a[i] && b[j] == a[j]);
            } else if i < a.len() {
                assert(b[i] == a[i]);
                assert(a.contains(a[i]));
                assert(top.contains(top[j - a.len()]));
            } else {
                assert(top.contains(top[i - a.len()]));
                assert(top.contains(top[j - a.len()]));
            }
        }
        if cs.no_duplicates() {
            assert forall|i: int, j: int| 0 <= i < b.len() && 0 <= j < b.len() && i != j implies b[i] != b[j] by {
                if i < a.len() && j < a.len() {
                    assert(b[i] == a[i] && b[j] == a[j]);
                } else if i >= a.len() && j >= a.len() {
                    assert(b[i] == top[i - a.len()] && b[j] == top[j - a.len()]);
                } else if i < a.len() {
                    assert(a.contains(a[i]));
                    assert(top.contains(top[j - a.len()]));
                } else {
                    assert(a.contains(a[j]));
                    assert(top.contains(top[i - a.len()]));
                }
            }
        }
    }
}

/// The deepest depth is at least each container's depth.
proof fn lemma_deepest(d: DesignView, cs: Seq<ContainerView>)
    ensures
        forall|x: ContainerView| cs.contains(x) ==> container_depth(d, x) <= deepest(d, cs),
    decreases cs.len(),
{
    if cs.len() > 0 {
        lemma_deepest(d, cs.drop_last());
        assert forall|x: ContainerView| cs.contains(x) implies container_depth(d, x) <= deepest(d, cs) by {
            let i = choose|i: int| 0 <= i < cs.len() && cs[i] == x;
            if i < cs.len() - 1 {
                assert(cs.drop_last()[i] == x);
                assert(cs.drop_last().contains(x));
            }
        }
    }
}

/// In a valid design a container lies one level below the container around it.
#[verifier::spinoff_prover]
#[verifier::rlimit(30)]
proof fn lemma_child_depth(d: DesignView, p: int, c: int)
    requires
        crate::validation::spec_is_valid(d),
        0 <= p < d.containers.len(),
        0 <= c < d.containers.len(),
        d.containers[c].parent == Some(d.containers[p].id),
    ensures
        container_depth(d, d.containers[c]) == container_depth(d, d.containers[p]) + 1,
{
    let pp = parent_pairs(d.containers);
    let n = d.containers.len();
    let id = d.containers[p].id;
    crate::layers::lemma_valid_well_formed(d);
    crate::layers::lemma_vertex_lookups(d);
    assert(parent_of(pp, id) == d.containers[p].parent);
    crate::ancestry::lemma_acyclic_chain_ends(pp, id);
    if let Some(q) = parent_of(pp, id) {
        assert(crate::ancestry::ancestor(pp, id, 0) == Some(id));
        assert(crate::ancestry::ancestor(pp, id, 1) == Some(q));
        crate::ancestry::lemma_ancestor_add(pp, id, 1, n);
        assert((1 + n) as nat == n + 1);
    }
    crate::layers::lemma_chain_fuel(pp, parent_of(pp, id), n);
    assert(chain(pp, Some(id), n + 1) == chain(pp, parent_of(pp, id), n).push(id));
}

/// Containers paint in ancestor order: a valid design paints each of its
/// containers exactly once, and every container after the container around it.
#[verifier::spinoff_prover]
#[verifier::rlimit(30)]
pub proof fn law_containers_paint_after_their_parents(design: Design)
    requires
        crate::validation::spec_is_valid(design@),
    ensures
        forall|c: ContainerView| paint_order(design@).contains(c) <==> design@.containers.contains(c),
        paint_order(design@).no_duplicates(),
        forall|i: int, j: int| 0 <= i < paint_order(design@).len() && 0 <= j < paint_order(design@).len()
            && (#[trigger] paint_order(design@)[j]).parent == Some((#[trigger] paint_order(design@)[i]).id) ==> i < j,
{
    broadcast use vstd::std_specs::vec::axiom_spec_len;
    let d = design@;
    assert(design.containers.len() == d.containers.len());
    let cs = sorted_by_id(d.containers, container_ids(d.containers));
    crate::reorder::lemma_valid_ids_distinct(d);
    assert(container_ids(d.containers) =~= d.containers.map_values(|x: ContainerView| x.id));
    crate::reorder::lemma_sorted_listing(d.containers, |x: ContainerView| x.id);
    let key = |x: ContainerView| x.id;
    assert(cs.no_duplicates()) by {
        assert forall|i: int, j: int| 0 <= i < cs.len() && 0 <= j < cs.len() && i != j implies cs[i] != cs[j] by {
            let ks = cs.map_values(key);
            if i < j {
                assert(lex_lt(ks[i], ks[j]));
                crate::text::lemma_lex_irreflexive(ks[i]);
            } else {
                assert(lex_lt(ks[j], ks[i]));
                crate::text::lemma_lex_irreflexive(ks[j]);
            }
        }
    }
    lemma_deepest(d, cs);
    lemma_by_depth(d, cs, deepest(d, cs));
    let order = paint_order(d);
    assert forall|c: ContainerView| order.contains(c) <==> d.containers.contains(c) by {
        assert(cs.contains(c) <==> d.containers.contains(c));
    }
    assert forall|i: int, j: int| 0 <= i < order.len() && 0 <= j < order.len()
        && (#[trigger] order[j]).parent == Some((#[trigger] order[i]).id) implies i < j by {
        assert(order.contains(order[i]) && order.contains(order[j]));
        let p = choose|p: int| 0 <= p < d.containers.len() && d.containers[p] == order[i];
        let c = choose|c: int| 0 <= c < d.containers.len() && d.containers[c] == order[j];
        lemma_child_depth(d, p, c);
        if j <= i {
            if j < i {
                assert(container_depth(d, order[j]) <= container_depth(d, order[i]));
            }
        }
    }
}
} // verus!
