//! The rules a design must satisfy before it is saved.

use vstd::prelude::*;

use crate::id_map::{entry_views, has_key, key_set, lemma_lookup_has_key, lookup, IdMap};
use crate::model::{
    views, ContainerView, Design, DesignView, EdgeView, LayoutEntry, NodeView, NoteView,
    spec_is_finite,
};

verus! {

/// Which of the four element collections an id belongs to.
#[derive(Clone, Copy, Debug, PartialEq, Eq, Structural)]
pub enum ElementKind {
    Container,
    Node,
    Edge,
    Note,
}

/// A single file-format or model problem. Validation collects these together.
#[derive(Clone, Debug, PartialEq)]
pub enum Problem {
    /// The file's version, as its JSON text, is not the supported one.
    UnknownVersion { found: String, supported: u64 },
    UnknownTopLevelKey { key: String },
    InvalidField { field: String, message: String },
    InvalidId { id: String },
    DuplicateId { id: String },
    MissingReference { id: String, field: &'static str, target: String },
    InvalidReference {
        id: String,
        field: &'static str,
        target: String,
        expected: &'static str,
    },
    InvalidEdge { id: String },
    ContainerCycle { ids: Vec<String> },
    InvalidLayout { id: String, message: &'static str },
}

/// The model of a problem: its strings as character sequences.
pub enum ProblemView {
    UnknownVersion { found: Seq<char>, supported: u64 },
    UnknownTopLevelKey { key: Seq<char> },
    InvalidField { field: Seq<char>, message: Seq<char> },
    InvalidId { id: Seq<char> },
    DuplicateId { id: Seq<char> },
    MissingReference { id: Seq<char>, field: Seq<char>, target: Seq<char> },
    InvalidReference { id: Seq<char>, field: Seq<char>, target: Seq<char>, expected: Seq<char> },
    InvalidEdge { id: Seq<char> },
    ContainerCycle { ids: Seq<Seq<char>> },
    InvalidLayout { id: Seq<char>, message: Seq<char> },
}

impl View for Problem {
    type V = ProblemView;

    open spec fn view(&self) -> ProblemView {
        match self {
            Problem::UnknownVersion { found, supported } => ProblemView::UnknownVersion {
                found: found@,
                supported: *supported,
            },
            Problem::UnknownTopLevelKey { key } => ProblemView::UnknownTopLevelKey { key: key@ },
            Problem::InvalidField { field, message } => ProblemView::InvalidField {
                field: field@,
                message: message@,
            },
            Problem::InvalidId { id } => ProblemView::InvalidId { id: id@ },
            Problem::DuplicateId { id } => ProblemView::DuplicateId { id: id@ },
            Problem::MissingReference { id, field, target } => ProblemView::MissingReference {
                id: id@,
                field: field@,
                target: target@,
            },
            Problem::InvalidReference { id, field, target, expected } =>
                ProblemView::InvalidReference {
                id: id@,
                field: field@,
                target: target@,
                expected: expected@,
            },
            Problem::InvalidEdge { id } => ProblemView::InvalidEdge { id: id@ },
            Problem::ContainerCycle { ids } => ProblemView::ContainerCycle { ids: ids.deep_view() },
            Problem::InvalidLayout { id, message } => ProblemView::InvalidLayout {
                id: id@,
                message: message@,
            },
        }
    }
}

// ---------------------------------------------------------------------------
// Ids

pub open spec fn id_char(c: char) -> bool {
    ('a' <= c && c <= 'z') || ('0' <= c && c <= '9')
}

/// A slug: lowercase ASCII letters, digits, and inner hyphens.
pub open spec fn spec_valid_id(id: Seq<char>) -> bool {
    &&& id.len() > 0
    &&& forall|i: int| 0 <= i < id.len() ==> id_char(#[trigger] id[i]) || id[i] == '-'
    &&& id_char(id[0])
    &&& id_char(id[id.len() - 1])
}

/// Whether `id` is a slug: lowercase ASCII letters, digits, and inner hyphens.
pub fn valid_id(id: &str) -> (valid: bool)
    ensures
        valid == spec_valid_id(id@),
{
    let chars = crate::text::chars_of(id);
    let n = chars.len();
    if n == 0 {
        return false;
    }
    let mut i: usize = 0;
    while i < n
        invariant
            chars@ == id@,
            n == chars.len(),
            i <= n,
            forall|j: int| 0 <= j < i ==> id_char(#[trigger] id@[j]) || id@[j] == '-',
        decreases n - i,
    {
        let c = chars[i];
        if !(('a' <= c && c <= 'z') || ('0' <= c && c <= '9') || c == '-') {
            return false;
        }
        i = i + 1;
    }
    let first = chars[0];
    let last = chars[n - 1];
    (('a' <= first && first <= 'z') || ('0' <= first && first <= '9')) && (('a' <= last && last
        <= 'z') || ('0' <= last && last <= '9'))
}

// ---------------------------------------------------------------------------
// The element index

/// Every element id with its kind: containers, nodes, edges, then notes.
pub open spec fn element_entries(d: DesignView) -> Seq<(Seq<char>, ElementKind)> {
    d.containers.map_values(|c: ContainerView| (c.id, ElementKind::Container)) + d.nodes.map_values(
        |n: NodeView| (n.id, ElementKind::Node),
    ) + d.edges.map_values(|e: EdgeView| (e.id, ElementKind::Edge)) + d.notes.map_values(
        |n: NoteView| (n.id, ElementKind::Note),
    )
}

/// Malformed ids, and ids that an earlier element already uses, in element order.
pub open spec fn id_problems(elements: Seq<(Seq<char>, ElementKind)>) -> Seq<ProblemView>
    decreases elements.len(),
{
    if elements.len() == 0 {
        Seq::empty()
    } else {
        let id = elements.last().0;
        let before = elements.drop_last();
        id_problems(before) + (if spec_valid_id(id) {
            Seq::empty()
        } else {
            seq![ProblemView::InvalidId { id }]
        }) + (if has_key(before, id) {
            seq![ProblemView::DuplicateId { id }]
        } else {
            Seq::empty()
        })
    }
}

fn element_list(design: &Design) -> (out: Vec<(String, ElementKind)>)
    ensures
        entry_views(out@) == element_entries(design@),
{
    let mut out: Vec<(String, ElementKind)> = Vec::new();
    let ghost d = design@;
    for i in 0..design.containers.len()
        invariant
            d == design@,
            entry_views(out@) == d.containers.take(i as int).map_values(
                |c: ContainerView| (c.id, ElementKind::Container),
            ),
    {
        let ghost prev = out@;
        out.push((design.containers[i].id.clone(), ElementKind::Container));
        proof {
            assert(entry_views(out@) =~= entry_views(prev).push((d.containers[i as int].id, ElementKind::Container)));
            assert(d.containers.take(i + 1) =~= d.containers.take(i as int).push(d.containers[i as int]));
        }
    }
    proof {
        assert(d.containers.take(d.containers.len() as int) =~= d.containers);
    }
    let ghost base = entry_views(out@);
    for i in 0..design.nodes.len()
        invariant
            d == design@,
            entry_views(out@) == base + d.nodes.take(i as int).map_values(
                |n: NodeView| (n.id, ElementKind::Node),
            ),
    {
        let ghost prev = out@;
        out.push((design.nodes[i].id.clone(), ElementKind::Node));
        proof {
            assert(entry_views(out@) =~= entry_views(prev).push((d.nodes[i as int].id, ElementKind::Node)));
            assert(d.nodes.take(i + 1) =~= d.nodes.take(i as int).push(d.nodes[i as int]));
        }
    }
    proof {
        assert(d.nodes.take(d.nodes.len() as int) =~= d.nodes);
    }
    let ghost base = entry_views(out@);
    for i in 0..design.edges.len()
        invariant
            d == design@,
            entry_views(out@) == base + d.edges.take(i as int).map_values(
                |e: EdgeView| (e.id, ElementKind::Edge),
            ),
    {
        let ghost prev = out@;
        out.push((design.edges[i].id.clone(), ElementKind::Edge));
        proof {
            assert(entry_views(out@) =~= entry_views(prev).push((d.edges[i as int].id, ElementKind::Edge)));
            assert(d.edges.take(i + 1) =~= d.edges.take(i as int).push(d.edges[i as int]));
        }
    }
    proof {
        assert(d.edges.take(d.edges.len() as int) =~= d.edges);
    }
    let ghost base = entry_views(out@);
    for i in 0..design.notes.len()
        invariant
            d == design@,
            entry_views(out@) == base + d.notes.take(i as int).map_values(
                |n: NoteView| (n.id, ElementKind::Note),
            ),
    {
        let ghost prev = out@;
        out.push((design.notes[i].id.clone(), ElementKind::Note));
        proof {
            assert(entry_views(out@) =~= entry_views(prev).push((d.notes[i as int].id, ElementKind::Note)));
            assert(d.notes.take(i + 1) =~= d.notes.take(i as int).push(d.notes[i as int]));
        }
    }
    proof {
        assert(d.notes.take(d.notes.len() as int) =~= d.notes);
        assert(entry_views(out@) =~= element_entries(d));
    }
    out
}

/// Index every element id, collecting id problems. The index holds, for each
/// id, the kind of the last element that uses it.
fn index_elements(design: &Design, problems: &mut Vec<Problem>) -> (elements: IdMap<ElementKind>)
    ensures
        views(final(problems)@) == views(old(problems)@) + id_problems(element_entries(design@)),
        forall|x: Seq<char>| #[trigger] lookup(elements@, x) == lookup(element_entries(design@), x),
{
    let list = element_list(design);
    let ghost all = entry_views(list@);
    let ghost start = views(problems@);
    let mut elements: IdMap<ElementKind> = IdMap::new();
    for i in 0..list.len()
        invariant
            all == entry_views(list@),
            all == element_entries(design@),
            views(problems@) == start + id_problems(all.take(i as int)),
            forall|x: Seq<char>| #[trigger] lookup(elements@, x) == lookup(all.take(i as int), x),
    {
        let ghost before = all.take(i as int);
        proof {
            assert(all.take(i + 1).drop_last() =~= before);
            assert(all.take(i + 1).last() == all[i as int]);
            assert(all[i as int] == (list@[i as int].0@, list@[i as int].1));
            lemma_lookup_has_key(before, list@[i as int].0@);
            lemma_lookup_has_key(elements@, list@[i as int].0@);
        }
        let id = &list[i].0;
        let ghost p0 = views(problems@);
        if !valid_id(id.as_str()) {
            problems.push(Problem::InvalidId { id: id.clone() });
            proof {
                assert(views(problems@) =~= p0.push(ProblemView::InvalidId { id: id@ }));
            }
        }
        let ghost p1 = views(problems@);
        if elements.insert(id.clone(), list[i].1).is_some() {
            problems.push(Problem::DuplicateId { id: id.clone() });
            proof {
                assert(views(problems@) =~= p1.push(ProblemView::DuplicateId { id: id@ }));
            }
        }
        proof {
            let step = id_problems(all.take(i + 1));
            assert(step == id_problems(before) + (if spec_valid_id(id@) {
                Seq::empty()
            } else {
                seq![ProblemView::InvalidId { id: id@ }]
            }) + (if has_key(before, id@) {
                seq![ProblemView::DuplicateId { id: id@ }]
            } else {
                Seq::empty()
            }));
            assert(views(problems@) =~= start + step);
            assert forall|x: Seq<char>| #[trigger] lookup(elements@, x) == lookup(all.take(i + 1), x) by {
            }
        }
    }
    proof {
        assert(all.take(list@.len() as int) =~= all);
    }
    elements
}


// ---------------------------------------------------------------------------
// References

pub open spec fn expected_text(allowed: Seq<ElementKind>) -> Seq<char> {
    if allowed.len() == 1 {
        "a container"@
    } else if allowed.len() == 2 {
        "a node or container"@
    } else {
        "a node, container, or edge"@
    }
}

/// The problem, if any, with element `id` referring to `target` in `field`.
pub open spec fn reference_problems(
    elements: Seq<(Seq<char>, ElementKind)>,
    id: Seq<char>,
    field: Seq<char>,
    target: Seq<char>,
    allowed: Seq<ElementKind>,
) -> Seq<ProblemView> {
    match lookup(elements, target) {
        None => seq![ProblemView::MissingReference { id, field, target }],
        Some(kind) => if allowed.contains(kind) {
            Seq::empty()
        } else {
            seq![ProblemView::InvalidReference { id, field, target, expected: expected_text(allowed) }]
        },
    }
}

pub open spec fn container_kinds() -> Seq<ElementKind> {
    seq![ElementKind::Container]
}

pub open spec fn endpoint_kinds() -> Seq<ElementKind> {
    seq![ElementKind::Node, ElementKind::Container]
}

pub open spec fn target_kinds() -> Seq<ElementKind> {
    seq![ElementKind::Node, ElementKind::Container, ElementKind::Edge]
}

/// Nodes whose container is missing or is not a container.
pub open spec fn membership_problems(elements: Seq<(Seq<char>, ElementKind)>, nodes: Seq<NodeView>) -> Seq<ProblemView>
    decreases nodes.len(),
{
    if nodes.len() == 0 {
        Seq::empty()
    } else {
        let node = nodes.last();
        membership_problems(elements, nodes.drop_last()) + match node.container {
            Some(target) => reference_problems(elements, node.id, "container"@, target, container_kinds()),
            None => Seq::empty(),
        }
    }
}

/// Containers whose parent is missing or is not a container.
pub open spec fn parent_problems(elements: Seq<(Seq<char>, ElementKind)>, containers: Seq<ContainerView>) -> Seq<ProblemView>
    decreases containers.len(),
{
    if containers.len() == 0 {
        Seq::empty()
    } else {
        let container = containers.last();
        parent_problems(elements, containers.drop_last()) + match container.parent {
            Some(target) => reference_problems(elements, container.id, "parent"@, target, container_kinds()),
            None => Seq::empty(),
        }
    }
}

/// Edges whose endpoints are missing or are not nodes or containers, and edges between two containers.
pub open spec fn edge_problems(elements: Seq<(Seq<char>, ElementKind)>, edges: Seq<EdgeView>) -> Seq<ProblemView>
    decreases edges.len(),
{
    if edges.len() == 0 {
        Seq::empty()
    } else {
        let edge = edges.last();
        edge_problems(elements, edges.drop_last()) + reference_problems(
            elements,
            edge.id,
            "from"@,
            edge.from,
            endpoint_kinds(),
        ) + reference_problems(elements, edge.id, "to"@, edge.to, endpoint_kinds()) + (if lookup(
            elements,
            edge.from,
        ) == Some(ElementKind::Container) && lookup(elements, edge.to) == Some(
            ElementKind::Container,
        ) {
            seq![ProblemView::InvalidEdge { id: edge.id }]
        } else {
            Seq::empty()
        })
    }
}

/// Notes attached to something missing, or to another note.
pub open spec fn note_problems(elements: Seq<(Seq<char>, ElementKind)>, notes: Seq<NoteView>) -> Seq<ProblemView>
    decreases notes.len(),
{
    if notes.len() == 0 {
        Seq::empty()
    } else {
        let note = notes.last();
        note_problems(elements, notes.drop_last()) + match note.on {
            Some(target) => reference_problems(elements, note.id, "on"@, target, target_kinds()),
            None => Seq::empty(),
        }
    }
}

fn kind_allowed(allowed: &[ElementKind], kind: ElementKind) -> (found: bool)
    ensures
        found == allowed@.contains(kind),
{
    let mut i: usize = 0;
    while i < allowed.len()
        invariant
            i <= allowed@.len(),
            forall|j: int| 0 <= j < i ==> allowed@[j] != kind,
        decreases allowed@.len() - i,
    {
        if allowed[i] == kind {
            return true;
        }
        i = i + 1;
    }
    false
}

fn check_reference(
    elements: &IdMap<ElementKind>,
    id: &String,
    field: &'static str,
    target: &String,
    allowed: &[ElementKind],
    problems: &mut Vec<Problem>,
)
    requires
        1 <= allowed@.len() <= 3,
    ensures
        views(final(problems)@) == views(old(problems)@) + reference_problems(
            elements@,
            id@,
            field@,
            target@,
            allowed@,
        ),
{
    let ghost start = views(problems@);
    match elements.get(target.as_str()) {
        None => {
            problems.push(Problem::MissingReference { id: id.clone(), field, target: target.clone() });
            proof {
                assert(views(problems@) =~= start.push(ProblemView::MissingReference { id: id@, field: field@, target: target@ }));
            }
        },
        Some(kind) => {
            if !kind_allowed(allowed, kind) {
                let expected: &'static str = if allowed.len() == 1 {
                    "a container"
                } else if allowed.len() == 2 {
                    "a node or container"
                } else {
                    "a node, container, or edge"
                };
                problems.push(
                    Problem::InvalidReference { id: id.clone(), field, target: target.clone(), expected },
                );
                proof {
                    assert(views(problems@) =~= start.push(ProblemView::InvalidReference {
                        id: id@,
                        field: field@,
                        target: target@,
                        expected: expected_text(allowed@),
                    }));
                }
            } else {
                proof {
                    assert(views(problems@) =~= start + Seq::<ProblemView>::empty());
                }
            }
        },
    }
}

fn check_memberships(elements: &IdMap<ElementKind>, design: &Design, problems: &mut Vec<Problem>)
    ensures
        views(final(problems)@) == views(old(problems)@) + membership_problems(elements@, design@.nodes),
{
    let ghost start = views(problems@);
    let ghost nodes = design@.nodes;
    let allowed = [ElementKind::Container];
    proof {
        assert(allowed@ =~= container_kinds());
    }
    for i in 0..design.nodes.len()
        invariant
            nodes == design@.nodes,
            allowed@ == container_kinds(),
            views(problems@) == start + membership_problems(elements@, nodes.take(i as int)),
    {
        proof {
            assert(nodes.take(i + 1).drop_last() =~= nodes.take(i as int));
            assert(nodes.take(i + 1).last() == nodes[i as int]);
        }
        let node = &design.nodes[i];
        let ghost before = views(problems@);
        if let Some(container) = &node.container {
            check_reference(elements, &node.id, "container", container, &allowed, problems);
        }
        proof {
            assert(views(problems@) =~= start + membership_problems(elements@, nodes.take(i + 1)));
        }
    }
    proof {
        assert(nodes.take(nodes.len() as int) =~= nodes);
    }
}

fn check_parents(elements: &IdMap<ElementKind>, design: &Design, problems: &mut Vec<Problem>)
    ensures
        views(final(problems)@) == views(old(problems)@) + parent_problems(elements@, design@.containers),
{
    let ghost start = views(problems@);
    let ghost containers = design@.containers;
    let allowed = [ElementKind::Container];
    proof {
        assert(allowed@ =~= container_kinds());
    }
    for i in 0..design.containers.len()
        invariant
            containers == design@.containers,
            allowed@ == container_kinds(),
            views(problems@) == start + parent_problems(elements@, containers.take(i as int)),
    {
        proof {
            assert(containers.take(i + 1).drop_last() =~= containers.take(i as int));
            assert(containers.take(i + 1).last() == containers[i as int]);
        }
        let container = &design.containers[i];
        if let Some(parent) = &container.parent {
            check_reference(elements, &container.id, "parent", parent, &allowed, problems);
        }
        proof {
            assert(views(problems@) =~= start + parent_problems(elements@, containers.take(i + 1)));
        }
    }
    proof {
        assert(containers.take(containers.len() as int) =~= containers);
    }
}

fn check_edges(elements: &IdMap<ElementKind>, design: &Design, problems: &mut Vec<Problem>)
    ensures
        views(final(problems)@) == views(old(problems)@) + edge_problems(elements@, design@.edges),
{
    let ghost start = views(problems@);
    let ghost edges = design@.edges;
    let allowed = [ElementKind::Node, ElementKind::Container];
    proof {
        assert(allowed@ =~= endpoint_kinds());
    }
    for i in 0..design.edges.len()
        invariant
            edges == design@.edges,
            allowed@ == endpoint_kinds(),
            views(problems@) == start + edge_problems(elements@, edges.take(i as int)),
    {
        proof {
            assert(edges.take(i + 1).drop_last() =~= edges.take(i as int));
            assert(edges.take(i + 1).last() == edges[i as int]);
        }
        let edge = &design.edges[i];
        check_reference(elements, &edge.id, "from", &edge.from, &allowed, problems);
        check_reference(elements, &edge.id, "to", &edge.to, &allowed, problems);
        let ghost before = views(problems@);
        if elements.get(edge.from.as_str()) == Some(ElementKind::Container) && elements.get(
            edge.to.as_str(),
        ) == Some(ElementKind::Container) {
            problems.push(Problem::InvalidEdge { id: edge.id.clone() });
            proof {
                assert(views(problems@) =~= before.push(ProblemView::InvalidEdge { id: edge.id@ }));
            }
        }
        proof {
            assert(views(problems@) =~= start + edge_problems(elements@, edges.take(i + 1)));
        }
    }
    proof {
        assert(edges.take(edges.len() as int) =~= edges);
    }
}

fn check_notes(elements: &IdMap<ElementKind>, design: &Design, problems: &mut Vec<Problem>)
    ensures
        views(final(problems)@) == views(old(problems)@) + note_problems(elements@, design@.notes),
{
    let ghost start = views(problems@);
    let ghost notes = design@.notes;
    let allowed = [ElementKind::Node, ElementKind::Container, ElementKind::Edge];
    proof {
        assert(allowed@ =~= target_kinds());
    }
    for i in 0..design.notes.len()
        invariant
            notes == design@.notes,
            allowed@ == target_kinds(),
            views(problems@) == start + note_problems(elements@, notes.take(i as int)),
    {
        proof {
            assert(notes.take(i + 1).drop_last() =~= notes.take(i as int));
            assert(notes.take(i + 1).last() == notes[i as int]);
        }
        let note = &design.notes[i];
        if let Some(target) = &note.on {
            check_reference(elements, &note.id, "on", target, &allowed, problems);
        }
        proof {
            assert(views(problems@) =~= start + note_problems(elements@, notes.take(i + 1)));
        }
    }
    proof {
        assert(notes.take(notes.len() as int) =~= notes);
    }
}


// ---------------------------------------------------------------------------
// Container cycles

/// Each container id with its parent; for a repeated id the last one counts.
pub open spec fn parent_pairs(containers: Seq<ContainerView>) -> Seq<(Seq<char>, Option<Seq<char>>)> {
    containers.map_values(|c: ContainerView| (c.id, c.parent))
}

/// The parent of `id`, if `id` is a container that has one.
pub open spec fn parent_of(parents: Seq<(Seq<char>, Option<Seq<char>>)>, id: Seq<char>) -> Option<Seq<char>> {
    match lookup(parents, id) {
        Some(p) => p,
        None => None,
    }
}

/// Ids in strictly increasing order.
pub open spec fn strictly_increasing(s: Seq<Seq<char>>) -> bool {
    forall|i: int, j: int| 0 <= i < j < s.len() ==> crate::text::lex_lt(#[trigger] s[i], #[trigger] s[j])
}

/// The ids in `ids`, in increasing order.
pub open spec fn sorted_ids(ids: Set<Seq<char>>) -> Seq<Seq<char>> {
    choose|s: Seq<Seq<char>>| strictly_increasing(s) && s.to_set() == ids
}

/// Walk up the parent chain from `current`, extending `path`, until an id has
/// no parent, an id repeats on the path (the cycle is the path from that id
/// on), or an id was seen on an earlier walk.
pub open spec fn walk(
    parents: Seq<(Seq<char>, Option<Seq<char>>)>,
    seen: Set<Seq<char>>,
    path: Seq<Seq<char>>,
    current: Option<Seq<char>>,
) -> (Seq<Seq<char>>, Option<Seq<Seq<char>>>)
    decreases parents.len() + 1 - path.len(),
{
    match current {
        None => (path, None),
        Some(id) => if path.contains(id) {
            (path, Some(path.skip(path.index_of(id))))
        } else if seen.contains(id) || path.len() > parents.len() {
            (path, None)
        } else {
            walk(parents, seen, path.push(id), parent_of(parents, id))
        },
    }
}

/// The position of the least id.
pub open spec fn least_position(ids: Seq<Seq<char>>) -> int
    decreases ids.len(),
{
    if ids.len() <= 1 {
        0
    } else {
        let m = least_position(ids.drop_last());
        if crate::text::lex_lt(ids.last(), ids[m]) {
            ids.len() - 1
        } else {
            m
        }
    }
}

/// A cycle, rotated to start at its least id so that it has one representation.
pub open spec fn rotate_to_least(ids: Seq<Seq<char>>) -> Seq<Seq<char>> {
    ids.skip(least_position(ids)) + ids.take(least_position(ids))
}

/// Cycles found walking up from each start in turn; each walk stops at ids
/// that earlier walks visited, so each cycle is reported once.
pub open spec fn cycle_reports(
    parents: Seq<(Seq<char>, Option<Seq<char>>)>,
    starts: Seq<Seq<char>>,
    seen: Set<Seq<char>>,
) -> Seq<ProblemView>
    decreases starts.len(),
{
    if starts.len() == 0 {
        Seq::empty()
    } else {
        let (path, cycle) = walk(parents, seen, Seq::empty(), Some(starts[0]));
        (match cycle {
            Some(ids) => seq![ProblemView::ContainerCycle { ids: rotate_to_least(ids) }],
            None => Seq::empty(),
        }) + cycle_reports(parents, starts.drop_first(), seen + path.to_set())
    }
}

/// Container parent cycles, walking up from each container id in id order.
pub open spec fn cycle_problems(containers: Seq<ContainerView>) -> Seq<ProblemView> {
    let parents = parent_pairs(containers);
    cycle_reports(parents, sorted_ids(key_set(parents)), Set::empty())
}

pub proof fn lemma_increasing_unique(a: Seq<Seq<char>>, b: Seq<Seq<char>>)
    requires
        strictly_increasing(a),
        strictly_increasing(b),
        a.to_set() == b.to_set(),
    ensures
        a == b,
    decreases a.len(),
{
    broadcast use vstd::set::group_set_axioms, vstd::seq_lib::group_seq_properties;
    if a.len() == 0 {
        if b.len() > 0 {
            assert(b.to_set().contains(b[0]));
        }
        assert(a =~= b);
    } else if b.len() == 0 {
        assert(a.to_set().contains(a[0]));
    } else {
        assert(a.to_set().contains(a[0]));
        assert(b.to_set().contains(b[0]));
        let i = choose|i: int| 0 <= i < b.len() && b[i] == a[0];
        let j = choose|j: int| 0 <= j < a.len() && a[j] == b[0];
        if i > 0 {
            if j > 0 {
                crate::text::lemma_lex_asymmetric(b[0], b[i]);
            } else {
                crate::text::lemma_lex_irreflexive(b[0]);
            }
        }
        if j > 0 && i == 0 {
            crate::text::lemma_lex_irreflexive(a[0]);
        }
        assert(a[0] == b[0]);
        assert forall|x: Seq<char>| a.drop_first().to_set().contains(x) <==> b.drop_first().to_set().contains(x) by {
            if a.drop_first().to_set().contains(x) {
                let k = choose|k: int| 0 <= k < a.drop_first().len() && a.drop_first()[k] == x;
                assert(a[k + 1] == x);
                crate::text::lemma_lex_asymmetric(a[0], x);
                assert(b.to_set().contains(x));
                let l = choose|l: int| 0 <= l < b.len() && b[l] == x;
                assert(l != 0);
                assert(b.drop_first()[l - 1] == x);
            }
            if b.drop_first().to_set().contains(x) {
                let k = choose|k: int| 0 <= k < b.drop_first().len() && b.drop_first()[k] == x;
                assert(b[k + 1] == x);
                crate::text::lemma_lex_asymmetric(b[0], x);
                assert(a.to_set().contains(x));
                let l = choose|l: int| 0 <= l < a.len() && a[l] == x;
                assert(l != 0);
                assert(a.drop_first()[l - 1] == x);
            }
        }
        assert(a.drop_first().to_set() =~= b.drop_first().to_set());
        lemma_increasing_unique(a.drop_first(), b.drop_first());
        assert(a =~= seq![a[0]] + a.drop_first());
        assert(b =~= seq![b[0]] + b.drop_first());
    }
}

/// `index` maps each container id to the position of the last container with that id.
pub open spec fn indexes_parents(index: Seq<(Seq<char>, usize)>, containers: Seq<ContainerView>) -> bool {
    forall|x: Seq<char>|
        #![trigger lookup(index, x)]
        (lookup(index, x) is Some <==> has_key(parent_pairs(containers), x)) && (lookup(index, x) is Some
            ==> lookup(index, x).unwrap() < containers.len() && lookup(parent_pairs(containers), x)
            == Some(containers[lookup(index, x).unwrap() as int].parent))
}

/// The parent of `id`, read through the index of containers by id.
pub(crate) fn parent_lookup(index: &IdMap<usize>, design: &Design, id: &String) -> (parent: Option<String>)
    requires
        indexes_parents(index@, design@.containers),
    ensures
        parent.deep_view() == parent_of(parent_pairs(design@.containers), id@),
{
    proof {
        lemma_lookup_has_key(parent_pairs(design@.containers), id@);
    }
    match index.get(id.as_str()) {
        Some(j) => crate::model::clone_opt(&design.containers[j].parent),
        None => None,
    }
}


/// Distinct ids that are all keys of `s` number at most `s.len()`.
pub proof fn lemma_distinct_keys_bound<V>(path: Seq<Seq<char>>, s: Seq<(Seq<char>, V)>)
    requires
        path.no_duplicates(),
        forall|j: int| 0 <= j < path.len() ==> has_key(s, #[trigger] path[j]),
    ensures
        path.len() <= s.len(),
{
    let keys = s.map_values(|e: (Seq<char>, V)| e.0);
    assert(path.to_set().subset_of(keys.to_set())) by {
        assert forall|x: Seq<char>| path.to_set().contains(x) implies keys.to_set().contains(x) by {
            let j = choose|j: int| 0 <= j < path.len() && path[j] == x;
            assert(has_key(s, path[j]));
            let i = choose|i: int| 0 <= i < s.len() && #[trigger] s[i].0 == x;
            assert(keys[i] == x);
        }
    }
    path.unique_seq_to_set();
    keys.lemma_cardinality_of_set();
    vstd::set_lib::lemma_len_subset(path.to_set(), keys.to_set());
}

/// Copy of `path[from..]`.
fn suffix(path: &Vec<String>, from: usize) -> (out: Vec<String>)
    requires
        from <= path.len(),
    ensures
        out.deep_view() == path.deep_view().skip(from as int),
{
    let mut out: Vec<String> = Vec::new();
    let mut i = from;
    while i < path.len()
        invariant
            from <= i <= path.len(),
            out.deep_view() == path.deep_view().subrange(from as int, i as int),
        decreases path.len() - i,
    {
        let ghost prev = out.deep_view();
        out.push(path[i].clone());
        proof {
            assert(out.deep_view() =~= prev.push(path.deep_view()[i as int]));
            assert(path.deep_view().subrange(from as int, i + 1) =~= path.deep_view().subrange(from as int, i as int).push(path.deep_view()[i as int]));
        }
        i = i + 1;
    }
    proof {
        assert(path.deep_view().subrange(from as int, path.len() as int) =~= path.deep_view().skip(from as int));
    }
    out
}

/// One walk up the parent chain; `visited` gains every id on the path.
fn walk_up(index: &IdMap<usize>, design: &Design, visited: &mut IdMap<()>, start: &String) -> (out: (Vec<String>, Option<Vec<String>>))
    requires
        indexes_parents(index@, design@.containers),
    ensures
        (out.0.deep_view(), out.1.deep_view()) == walk(
            parent_pairs(design@.containers),
            key_set(old(visited)@),
            Seq::empty(),
            Some(start@),
        ),
        key_set(final(visited)@) == key_set(old(visited)@) + out.0.deep_view().to_set(),
{
    broadcast use vstd::set::group_set_axioms;
    let ghost parents = parent_pairs(design@.containers);
    let ghost seen = key_set(visited@);
    let ghost result = walk(parents, seen, Seq::empty(), Some(start@));
    let mut path: Vec<String> = Vec::new();
    let mut on_path: IdMap<usize> = IdMap::new();
    let mut current: Option<String> = Some(start.clone());
    proof {
        assert(path.deep_view() =~= Seq::<Seq<char>>::empty());
        assert(key_set(visited@) =~= seen + path.deep_view().to_set());
    }
    loop
        invariant
            indexes_parents(index@, design@.containers),
            parents == parent_pairs(design@.containers),
            seen == key_set(old(visited)@),
            result == walk(parents, seen, Seq::empty(), Some(start@)),
            walk(parents, seen, path.deep_view(), current.deep_view()) == result,
            path.deep_view().no_duplicates(),
            forall|x: Seq<char>|
                #![trigger lookup(on_path@, x)]
                (lookup(on_path@, x) is Some <==> path.deep_view().contains(x)) && (lookup(on_path@, x) is Some
                    ==> lookup(on_path@, x).unwrap() < path.len() && path.deep_view()[lookup(on_path@, x).unwrap() as int] == x),
            key_set(visited@) == seen + path.deep_view().to_set(),
            path.len() <= parents.len() + 1,
            current is Some ==> forall|j: int| 0 <= j < path.len() ==> has_key(parents, #[trigger] path.deep_view()[j]),
        decreases parents.len() + 1 - path.len(),
    {
        let id = match &current {
            None => {
                return (path, None);
            },
            Some(id) => id.clone(),
        };
        let ghost p = path.deep_view();
        if let Some(k) = on_path.get(id.as_str()) {
            proof {
                assert(p.contains(id@));
                assert(p[p.index_of(id@)] == id@);
                assert(p.index_of(id@) == k);
            }
            let cycle = suffix(&path, k);
            return (path, Some(cycle));
        }
        proof {
            lemma_lookup_has_key(visited@, id@);
        }
        let ghost v0 = visited@;
        proof {
            assert(key_set(v0) == seen + p.to_set());
        }
        if visited.insert(id.clone(), ()).is_some() {
            proof {
                assert(key_set(v0).contains(id@));
                assert(!p.contains(id@));
                assert(seen.contains(id@));
            }
            return (path, None);
        }
        proof {
            lemma_distinct_keys_bound(p, parents);
            assert(!has_key(v0, id@));
            assert(!key_set(v0).contains(id@));
            assert(!seen.contains(id@));
            assert(walk(parents, seen, p, Some(id@)) == walk(parents, seen, p.push(id@), parent_of(parents, id@)));
        }
        let ghost o0 = on_path@;
        on_path.insert(id.clone(), path.len());
        path.push(id.clone());
        current = parent_lookup(index, design, &id);
        proof {
            let q = path.deep_view();
            assert(q =~= p.push(id@));
            assert(q.no_duplicates());
            assert(key_set(visited@) =~= seen + q.to_set()) by {
                assert forall|x: Seq<char>| key_set(visited@).contains(x) <==> (seen + q.to_set()).contains(x) by {
                    assert(has_key(visited@, x) <==> has_key(v0, x) || x == id@);
                    assert(key_set(v0).contains(x) <==> has_key(v0, x));
                    assert(key_set(visited@).contains(x) <==> has_key(visited@, x));
                    if x != id@ {
                        assert(q.contains(x) <==> p.contains(x)) by {
                            if q.contains(x) {
                                let j = choose|j: int| 0 <= j < q.len() && q[j] == x;
                                assert(p[j] == x);
                            }
                            if p.contains(x) {
                                let j = choose|j: int| 0 <= j < p.len() && p[j] == x;
                                assert(q[j] == x);
                            }
                        }
                    } else {
                        assert(q[q.len() - 1] == x);
                    }
                }
            }
            assert forall|x: Seq<char>|
                #![trigger lookup(on_path@, x)]
                (lookup(on_path@, x) is Some <==> q.contains(x)) && (lookup(on_path@, x) is Some
                    ==> lookup(on_path@, x).unwrap() < path.len() && q[lookup(on_path@, x).unwrap() as int] == x) by {
                if x != id@ {
                    assert(lookup(on_path@, x) == lookup(o0, x));
                    assert(lookup(o0, x) is Some <==> p.contains(x));
                    if q.contains(x) {
                        let j = choose|j: int| 0 <= j < q.len() && q[j] == x;
                        assert(p[j] == x);
                    }
                    if p.contains(x) {
                        let j = choose|j: int| 0 <= j < p.len() && p[j] == x;
                        assert(q[j] == x);
                    }
                    if lookup(o0, x) is Some {
                        assert(q[lookup(o0, x).unwrap() as int] == p[lookup(o0, x).unwrap() as int]);
                    }
                } else {
                    assert(lookup(on_path@, x) == Some(p.len() as usize));
                    assert(q[q.len() - 1] == x);
                }
            }
            if current is Some {
                assert(parent_of(parents, id@) is Some);
                lemma_lookup_has_key(parents, id@);
                assert forall|j: int| 0 <= j < path.len() implies has_key(parents, #[trigger] q[j]) by {
                    if j < p.len() {
                        assert(q[j] == p[j]);
                    }
                }
            }
        }
    }
}


/// The cycle rotated to start at its least id.
fn rotated_to_least(ids: &Vec<String>) -> (out: Vec<String>)
    ensures
        out.deep_view() == rotate_to_least(ids.deep_view()),
{
    let ghost v = ids.deep_view();
    let mut m: usize = 0;
    let mut i: usize = 1;
    proof {
        if v.len() >= 1 {
            assert(least_position(v.take(1)) == 0);
        }
    }
    while i < ids.len()
        invariant
            v == ids.deep_view(),
            1 <= i,
            v.len() >= 1 ==> i <= v.len(),
            v.len() >= 1 ==> m == least_position(v.take(i as int)),
            v.len() >= 1 ==> m < i,
            v.len() == 0 ==> m == 0,
        decreases ids.len() - i,
    {
        proof {
            assert(v.take(i + 1).drop_last() =~= v.take(i as int));
            assert(v.take(i + 1).last() == v[i as int]);
            assert(v.take(i + 1)[m as int] == v[m as int]);
        }
        if crate::text::str_lt(ids[i].as_str(), ids[m].as_str()) {
            m = i;
        }
        i = i + 1;
    }
    proof {
        if v.len() >= 1 {
            assert(v.take(v.len() as int) =~= v);
        }
    }
    let mut out = suffix(ids, m);
    let mut j: usize = 0;
    while j < m
        invariant
            m <= ids.len(),
            v == ids.deep_view(),
            j <= m,
            out.deep_view() == v.skip(m as int) + v.take(j as int),
        decreases m - j,
    {
        let ghost prev = out.deep_view();
        out.push(ids[j].clone());
        proof {
            assert(out.deep_view() =~= prev.push(v[j as int]));
            assert(v.take(j + 1) =~= v.take(j as int).push(v[j as int]));
            assert(out.deep_view() =~= v.skip(m as int) + v.take(j + 1));
        }
        j = j + 1;
    }
    out
}

/// The sorted keys of `s`, as a sequence.
pub open spec fn keys_of<V>(s: Seq<(Seq<char>, V)>) -> Seq<Seq<char>> {
    s.map_values(|e: (Seq<char>, V)| e.0)
}

/// The containers indexed by id: the position of each container id's last
/// occurrence.
pub(crate) fn parent_index(design: &Design) -> (index: IdMap<usize>)
    ensures
        indexes_parents(index@, design@.containers),
{
    let ghost containers = design@.containers;
    let ghost parents = parent_pairs(containers);
    let mut index: IdMap<usize> = IdMap::new();
    for i in 0..design.containers.len()
        invariant
            containers == design@.containers,
            parents == parent_pairs(containers),
            indexes_parents(index@, containers.take(i as int)),
    {
        let ghost before = index@;
        index.insert(design.containers[i].id.clone(), i);
        proof {
            let pre = parent_pairs(containers.take(i as int));
            let post = parent_pairs(containers.take(i + 1));
            assert(post.drop_last() =~= pre);
            assert(post.last() == (containers[i as int].id, containers[i as int].parent));
            assert forall|x: Seq<char>|
                #![trigger lookup(index@, x)]
                (lookup(index@, x) is Some <==> has_key(post, x)) && (lookup(index@, x) is Some
                    ==> lookup(index@, x).unwrap() < containers.take(i + 1).len() && lookup(post, x)
                    == Some(containers.take(i + 1)[lookup(index@, x).unwrap() as int].parent)) by {
                lemma_lookup_has_key(post, x);
                lemma_lookup_has_key(pre, x);
                assert(lookup(before, x) is Some <==> has_key(pre, x));
                if x != containers[i as int].id {
                    if lookup(before, x) is Some {
                        let j = lookup(before, x).unwrap();
                        assert(containers.take(i + 1)[j as int] == containers.take(i as int)[j as int]);
                    }
                }
            }
        }
    }
    proof {
        assert(containers.take(containers.len() as int) =~= containers);
    }
    index
}

/// Report container parent cycles, walking up from each container in id order.
fn check_cycles(design: &Design, problems: &mut Vec<Problem>)
    ensures
        views(final(problems)@) == views(old(problems)@) + cycle_problems(design@.containers),
{
    broadcast use vstd::set::group_set_axioms;
    let ghost containers = design@.containers;
    let ghost parents = parent_pairs(containers);
    let index = parent_index(design);
    let items = index.items();
    let ghost starts = keys_of(index@);
    proof {
        use_type_invariant(&index);
        assert(strictly_increasing(starts));
        assert(starts.to_set() =~= key_set(parents)) by {
            assert forall|x: Seq<char>| starts.to_set().contains(x) <==> key_set(parents).contains(x) by {
                lemma_lookup_has_key(index@, x);
                if starts.contains(x) {
                    let j = choose|j: int| 0 <= j < starts.len() && starts[j] == x;
                    assert(index@[j].0 == x);
                }
                if has_key(index@, x) {
                    let j = choose|j: int| 0 <= j < index@.len() && #[trigger] index@[j].0 == x;
                    assert(starts[j] == x);
                }
            }
        }
        lemma_increasing_unique(starts, sorted_ids(key_set(parents)));
    }
    let ghost all = cycle_reports(parents, starts, Set::empty());
    let ghost start = views(problems@);
    let mut visited: IdMap<()> = IdMap::new();
    proof {
        assert(key_set(visited@) =~= Set::<Seq<char>>::empty());
        assert(starts.skip(0) =~= starts);
    }
    let mut i: usize = 0;
    while i < items.len()
        invariant
            entry_views(items@) == index@,
            starts == keys_of(index@),
            indexes_parents(index@, design@.containers),
            parents == parent_pairs(design@.containers),
            all == cycle_reports(parents, starts, Set::empty()),
            i <= items.len(),
            all == (views(problems@).skip(start.len() as int)) + cycle_reports(parents, starts.skip(i as int), key_set(visited@)),
            views(problems@).take(start.len() as int) == start,
            views(problems@).len() >= start.len(),
        decreases items.len() - i,
    {
        let ghost seen = key_set(visited@);
        let ghost rest = starts.skip(i as int);
        proof {
            assert(rest[0] == items@[i as int].0@);
            assert(rest.drop_first() =~= starts.skip(i + 1));
        }
        let ghost p0 = views(problems@);
        let (path, cycle) = walk_up(&index, design, &mut visited, &items[i].0);
        if let Some(ids) = cycle {
            problems.push(Problem::ContainerCycle { ids: rotated_to_least(&ids) });
        }
        proof {
            let (wpath, wcycle) = walk(parents, seen, Seq::empty(), Some(rest[0]));
            let added = match wcycle {
                Some(ids) => seq![ProblemView::ContainerCycle { ids: rotate_to_least(ids) }],
                None => Seq::<ProblemView>::empty(),
            };
            assert(views(problems@) =~= p0 + added);
            assert(cycle_reports(parents, rest, seen) == added + cycle_reports(parents, starts.skip(i + 1), key_set(visited@)));
            assert(views(problems@).skip(start.len() as int) =~= p0.skip(start.len() as int) + added);
            assert(views(problems@).take(start.len() as int) =~= p0.take(start.len() as int));
        }
        i = i + 1;
    }
    proof {
        assert(starts.skip(items.len() as int) =~= Seq::<Seq<char>>::empty());
        assert(views(problems@) =~= start + views(problems@).skip(start.len() as int));
    }
}


// ---------------------------------------------------------------------------
// Layout entries

/// Problems with one saved position.
pub open spec fn entry_problems(elements: Seq<(Seq<char>, ElementKind)>, id: Seq<char>, entry: LayoutEntry) -> Seq<ProblemView> {
    (if spec_valid_id(id) {
        Seq::empty()
    } else {
        seq![ProblemView::InvalidId { id }]
    }) + (if lookup(elements, id) is Some {
        Seq::empty()
    } else {
        seq![ProblemView::MissingReference { id, field: "layout"@, target: id }]
    }) + (if spec_is_finite(entry.x) && spec_is_finite(entry.y) {
        Seq::empty()
    } else {
        seq![ProblemView::InvalidLayout { id, message: "coordinates must be finite"@ }]
    }) + match entry.size {
        None => Seq::empty(),
        Some(size) => (if lookup(elements, id) == Some(ElementKind::Container) {
            Seq::empty()
        } else {
            seq![ProblemView::InvalidLayout { id, message: "only containers may have a size"@ }]
        }) + (if spec_is_finite(size.width) && spec_is_finite(size.height) {
            Seq::empty()
        } else {
            seq![ProblemView::InvalidLayout { id, message: "size must be finite"@ }]
        }),
    }
}

/// Problems with the saved positions, in id order.
pub open spec fn layout_problems(elements: Seq<(Seq<char>, ElementKind)>, layout: Seq<(Seq<char>, LayoutEntry)>) -> Seq<ProblemView>
    decreases layout.len(),
{
    if layout.len() == 0 {
        Seq::empty()
    } else {
        layout_problems(elements, layout.drop_last()) + entry_problems(elements, layout.last().0, layout.last().1)
    }
}

fn check_entry(elements: &IdMap<ElementKind>, id: &String, entry: LayoutEntry, problems: &mut Vec<Problem>)
    ensures
        views(final(problems)@) == views(old(problems)@) + entry_problems(elements@, id@, entry),
{
    let ghost p0 = views(problems@);
    if !valid_id(id.as_str()) {
        problems.push(Problem::InvalidId { id: id.clone() });
    }
    let ghost p1 = views(problems@);
    let kind = elements.get(id.as_str());
    if kind.is_none() {
        problems.push(Problem::MissingReference { id: id.clone(), field: "layout", target: id.clone() });
    }
    let ghost p2 = views(problems@);
    if !crate::model::is_finite(entry.x) || !crate::model::is_finite(entry.y) {
        problems.push(Problem::InvalidLayout { id: id.clone(), message: "coordinates must be finite" });
    }
    let ghost p3 = views(problems@);
    let ghost sized: Seq<ProblemView> = Seq::empty();
    if let Some(size) = entry.size {
        if kind != Some(ElementKind::Container) {
            problems.push(Problem::InvalidLayout { id: id.clone(), message: "only containers may have a size" });
        }
        let ghost p4 = views(problems@);
        if !crate::model::is_finite(size.width) || !crate::model::is_finite(size.height) {
            problems.push(Problem::InvalidLayout { id: id.clone(), message: "size must be finite" });
        }
        proof {
            assert(views(problems@) =~= p3 + (if kind == Some(ElementKind::Container) {
                Seq::<ProblemView>::empty()
            } else {
                seq![ProblemView::InvalidLayout { id: id@, message: "only containers may have a size"@ }]
            }) + (if crate::model::spec_is_finite(size.width) && crate::model::spec_is_finite(size.height) {
                Seq::<ProblemView>::empty()
            } else {
                seq![ProblemView::InvalidLayout { id: id@, message: "size must be finite"@ }]
            }));
        }
    }
    proof {
        assert(views(problems@) =~= p0 + entry_problems(elements@, id@, entry));
    }
}

fn check_layout(elements: &IdMap<ElementKind>, design: &Design, problems: &mut Vec<Problem>)
    ensures
        views(final(problems)@) == views(old(problems)@) + layout_problems(elements@, design@.layout),
{
    let ghost start = views(problems@);
    let ghost layout = design@.layout;
    let items = design.layout.items();
    for i in 0..items.len()
        invariant
            layout == design@.layout,
            entry_views(items@) == layout,
            views(problems@) == start + layout_problems(elements@, layout.take(i as int)),
    {
        proof {
            assert(layout.take(i + 1).drop_last() =~= layout.take(i as int));
            assert(layout.take(i + 1).last() == layout[i as int]);
            assert(layout[i as int] == (items@[i as int].0@, items@[i as int].1));
        }
        check_entry(elements, &items[i].0, items[i].1, problems);
        proof {
            assert(views(problems@) =~= start + layout_problems(elements@, layout.take(i + 1)));
        }
    }
    proof {
        assert(layout.take(layout.len() as int) =~= layout);
    }
}

// ---------------------------------------------------------------------------
// The whole design

/// All problems that would prevent a design from being saved, in the order
/// they are reported: ids, node memberships, container parents, edges,
/// notes, container cycles, then saved positions.
pub open spec fn spec_validate(d: DesignView) -> Seq<ProblemView> {
    let e = element_entries(d);
    id_problems(e) + membership_problems(e, d.nodes) + parent_problems(e, d.containers) + edge_problems(e, d.edges)
        + note_problems(e, d.notes) + cycle_problems(d.containers) + layout_problems(e, d.layout)
}

/// A design is valid when it has no problems.
pub open spec fn spec_is_valid(d: DesignView) -> bool {
    spec_validate(d).len() == 0
}

/// Sections that read the element index only through lookups agree on indexes that agree.
pub proof fn lemma_sections_congruent(a: Seq<(Seq<char>, ElementKind)>, b: Seq<(Seq<char>, ElementKind)>, d: DesignView)
    requires
        forall|x: Seq<char>| #[trigger] lookup(a, x) == lookup(b, x),
    ensures
        membership_problems(a, d.nodes) == membership_problems(b, d.nodes),
        parent_problems(a, d.containers) == parent_problems(b, d.containers),
        edge_problems(a, d.edges) == edge_problems(b, d.edges),
        note_problems(a, d.notes) == note_problems(b, d.notes),
        layout_problems(a, d.layout) == layout_problems(b, d.layout),
{
    lemma_membership_congruent(a, b, d.nodes);
    lemma_parent_congruent(a, b, d.containers);
    lemma_edge_congruent(a, b, d.edges);
    lemma_note_congruent(a, b, d.notes);
    lemma_layout_congruent(a, b, d.layout);
}

proof fn lemma_membership_congruent(a: Seq<(Seq<char>, ElementKind)>, b: Seq<(Seq<char>, ElementKind)>, s: Seq<NodeView>)
    requires
        forall|x: Seq<char>| #[trigger] lookup(a, x) == lookup(b, x),
    ensures
        membership_problems(a, s) == membership_problems(b, s),
    decreases s.len(),
{
    if s.len() > 0 {
        lemma_membership_congruent(a, b, s.drop_last());
    }
}

proof fn lemma_parent_congruent(a: Seq<(Seq<char>, ElementKind)>, b: Seq<(Seq<char>, ElementKind)>, s: Seq<ContainerView>)
    requires
        forall|x: Seq<char>| #[trigger] lookup(a, x) == lookup(b, x),
    ensures
        parent_problems(a, s) == parent_problems(b, s),
    decreases s.len(),
{
    if s.len() > 0 {
        lemma_parent_congruent(a, b, s.drop_last());
    }
}

proof fn lemma_edge_congruent(a: Seq<(Seq<char>, ElementKind)>, b: Seq<(Seq<char>, ElementKind)>, s: Seq<EdgeView>)
    requires
        forall|x: Seq<char>| #[trigger] lookup(a, x) == lookup(b, x),
    ensures
        edge_problems(a, s) == edge_problems(b, s),
    decreases s.len(),
{
    if s.len() > 0 {
        lemma_edge_congruent(a, b, s.drop_last());
    }
}

proof fn lemma_note_congruent(a: Seq<(Seq<char>, ElementKind)>, b: Seq<(Seq<char>, ElementKind)>, s: Seq<NoteView>)
    requires
        forall|x: Seq<char>| #[trigger] lookup(a, x) == lookup(b, x),
    ensures
        note_problems(a, s) == note_problems(b, s),
    decreases s.len(),
{
    if s.len() > 0 {
        lemma_note_congruent(a, b, s.drop_last());
    }
}

proof fn lemma_layout_congruent(a: Seq<(Seq<char>, ElementKind)>, b: Seq<(Seq<char>, ElementKind)>, s: Seq<(Seq<char>, LayoutEntry)>)
    requires
        forall|x: Seq<char>| #[trigger] lookup(a, x) == lookup(b, x),
    ensures
        layout_problems(a, s) == layout_problems(b, s),
    decreases s.len(),
{
    if s.len() > 0 {
        lemma_layout_congruent(a, b, s.drop_last());
    }
}

/// Check ids, references, container ancestry, and layout without changing a design.
pub fn validate(design: &Design) -> (problems: Vec<Problem>)
    ensures
        views(problems@) == spec_validate(design@),
{
    let mut problems: Vec<Problem> = Vec::new();
    proof {
        assert(views(problems@) =~= Seq::<ProblemView>::empty());
    }
    let elements = index_elements(design, &mut problems);
    check_memberships(&elements, design, &mut problems);
    check_parents(&elements, design, &mut problems);
    check_edges(&elements, design, &mut problems);
    check_notes(&elements, design, &mut problems);
    check_cycles(design, &mut problems);
    check_layout(&elements, design, &mut problems);
    proof {
        lemma_sections_congruent(elements@, element_entries(design@), design@);
        assert(views(problems@) =~= spec_validate(design@));
    }
    problems
}

impl Design {
    /// Return all problems that would prevent this design from being saved.
    pub fn validate(&self) -> (problems: Vec<Problem>)
        ensures
            views(problems@) == spec_validate(self@),
    {
        validate(self)
    }
}


/// A design with a title, an optional description, and nothing else is
/// valid: a newly created design can always be saved.
pub proof fn law_new_design_is_valid(title: Seq<char>, description: Option<Seq<char>>)
    ensures
        spec_is_valid(DesignView {
            title,
            description,
            containers: Seq::empty(),
            nodes: Seq::empty(),
            edges: Seq::empty(),
            notes: Seq::empty(),
            layout: Seq::empty(),
        }),
{
    let d = DesignView {
        title,
        description,
        containers: Seq::empty(),
        nodes: Seq::empty(),
        edges: Seq::empty(),
        notes: Seq::empty(),
        layout: Seq::empty(),
    };
    let e = element_entries(d);
    assert(e =~= Seq::<(Seq<char>, ElementKind)>::empty());
    let parents = parent_pairs(d.containers);
    assert(parents =~= Seq::<(Seq<char>, Option<Seq<char>>)>::empty());
    let none = Seq::<Seq<char>>::empty();
    assert(key_set(parents) =~= Set::<Seq<char>>::empty());
    assert(strictly_increasing(none) && none.to_set() =~= key_set(parents));
    let listed = sorted_ids(key_set(parents));
    assert(strictly_increasing(listed) && listed.to_set() == key_set(parents));
    lemma_increasing_unique(listed, none);
    assert(spec_validate(d) =~= Seq::<ProblemView>::empty());
}

/// A missing-container problem: a node's `container` names nothing.
pub open spec fn missing_container(p: ProblemView, target: Seq<char>) -> bool {
    p matches ProblemView::MissingReference { field, target: t, .. } && field == "container"@ && t == target
}

proof fn lemma_concat_contains(a: Seq<ProblemView>, b: Seq<ProblemView>, p: ProblemView)
    requires
        (a + b).contains(p),
    ensures
        a.contains(p) || b.contains(p),
{
    let k = choose|k: int| 0 <= k < (a + b).len() && (a + b)[k] == p;
    if k < a.len() {
        assert(a[k] == p);
    } else {
        assert(b[k - a.len()] == p);
    }
}

proof fn lemma_reference_fields(
    elements: Seq<(Seq<char>, ElementKind)>,
    id: Seq<char>,
    field: Seq<char>,
    target: Seq<char>,
    allowed: Seq<ElementKind>,
    t: Seq<char>,
)
    requires
        field != "container"@,
    ensures
        !reference_problems(elements, id, field, target, allowed).contains(ProblemView::MissingReference { id, field: "container"@, target: t }),
        forall|p: ProblemView| #[trigger] reference_problems(elements, id, field, target, allowed).contains(p) ==> !missing_container(p, t),
{
    let r = reference_problems(elements, id, field, target, allowed);
    assert forall|p: ProblemView| #[trigger] r.contains(p) implies !missing_container(p, t) by {
        let k = choose|k: int| 0 <= k < r.len() && r[k] == p;
        assert(r.len() == 1);
    }
}

proof fn lemma_id_problems_name_no_container(e: Seq<(Seq<char>, ElementKind)>, t: Seq<char>)
    ensures
        forall|p: ProblemView| #[trigger] id_problems(e).contains(p) ==> !missing_container(p, t),
    decreases e.len(),
{
    if e.len() > 0 {
        lemma_id_problems_name_no_container(e.drop_last(), t);
        let id = e.last().0;
        let a = id_problems(e.drop_last());
        let b = if spec_valid_id(id) { Seq::empty() } else { seq![ProblemView::InvalidId { id }] };
        let c = if has_key(e.drop_last(), id) { seq![ProblemView::DuplicateId { id }] } else { Seq::<ProblemView>::empty() };
        assert forall|p: ProblemView| #[trigger] id_problems(e).contains(p) implies !missing_container(p, t) by {
            lemma_concat_contains(a + b, c, p);
            if (a + b).contains(p) {
                lemma_concat_contains(a, b, p);
            }
        }
    }
}

proof fn lemma_parent_problems_name_no_container(e: Seq<(Seq<char>, ElementKind)>, cs: Seq<ContainerView>, t: Seq<char>)
    ensures
        forall|p: ProblemView| #[trigger] parent_problems(e, cs).contains(p) ==> !missing_container(p, t),
    decreases cs.len(),
{
    reveal_strlit("parent");
    reveal_strlit("container");
    assert("parent"@.len() != "container"@.len());
    if cs.len() > 0 {
        lemma_parent_problems_name_no_container(e, cs.drop_last(), t);
        let c = cs.last();
        let a = parent_problems(e, cs.drop_last());
        let b = match c.parent {
            Some(target) => reference_problems(e, c.id, "parent"@, target, container_kinds()),
            None => Seq::empty(),
        };
        if let Some(target) = c.parent {
            lemma_reference_fields(e, c.id, "parent"@, target, container_kinds(), t);
        }
        assert forall|p: ProblemView| #[trigger] parent_problems(e, cs).contains(p) implies !missing_container(p, t) by {
            lemma_concat_contains(a, b, p);
        }
    }
}

proof fn lemma_edge_problems_name_no_container(e: Seq<(Seq<char>, ElementKind)>, es: Seq<EdgeView>, t: Seq<char>)
    ensures
        forall|p: ProblemView| #[trigger] edge_problems(e, es).contains(p) ==> !missing_container(p, t),
    decreases es.len(),
{
    reveal_strlit("from");
    reveal_strlit("to");
    reveal_strlit("container");
    assert("from"@.len() != "container"@.len());
    assert("to"@.len() != "container"@.len());
    if es.len() > 0 {
        lemma_edge_problems_name_no_container(e, es.drop_last(), t);
        let edge = es.last();
        let a = edge_problems(e, es.drop_last());
        let f = reference_problems(e, edge.id, "from"@, edge.from, endpoint_kinds());
        let g = reference_problems(e, edge.id, "to"@, edge.to, endpoint_kinds());
        let h = if lookup(e, edge.from) == Some(ElementKind::Container) && lookup(e, edge.to) == Some(ElementKind::Container) {
            seq![ProblemView::InvalidEdge { id: edge.id }]
        } else {
            Seq::<ProblemView>::empty()
        };
        lemma_reference_fields(e, edge.id, "from"@, edge.from, endpoint_kinds(), t);
        lemma_reference_fields(e, edge.id, "to"@, edge.to, endpoint_kinds(), t);
        assert(edge_problems(e, es) =~= a + f + g + h);
        assert forall|p: ProblemView| #[trigger] edge_problems(e, es).contains(p) implies !missing_container(p, t) by {
            lemma_concat_contains(a + f + g, h, p);
            if (a + f + g).contains(p) {
                lemma_concat_contains(a + f, g, p);
                if (a + f).contains(p) {
                    lemma_concat_contains(a, f, p);
                }
            }
        }
    }
}

proof fn lemma_note_problems_name_no_container(e: Seq<(Seq<char>, ElementKind)>, ns: Seq<NoteView>, t: Seq<char>)
    ensures
        forall|p: ProblemView| #[trigger] note_problems(e, ns).contains(p) ==> !missing_container(p, t),
    decreases ns.len(),
{
    reveal_strlit("on");
    reveal_strlit("container");
    assert("on"@.len() != "container"@.len());
    if ns.len() > 0 {
        lemma_note_problems_name_no_container(e, ns.drop_last(), t);
        let n = ns.last();
        let a = note_problems(e, ns.drop_last());
        let b = match n.on {
            Some(target) => reference_problems(e, n.id, "on"@, target, target_kinds()),
            None => Seq::empty(),
        };
        if let Some(target) = n.on {
            lemma_reference_fields(e, n.id, "on"@, target, target_kinds(), t);
        }
        assert forall|p: ProblemView| #[trigger] note_problems(e, ns).contains(p) implies !missing_container(p, t) by {
            lemma_concat_contains(a, b, p);
        }
    }
}

proof fn lemma_cycle_reports_name_no_container(
    parents: Seq<(Seq<char>, Option<Seq<char>>)>,
    starts: Seq<Seq<char>>,
    seen: Set<Seq<char>>,
    t: Seq<char>,
)
    ensures
        forall|p: ProblemView| #[trigger] cycle_reports(parents, starts, seen).contains(p) ==> !missing_container(p, t),
    decreases starts.len(),
{
    if starts.len() > 0 {
        let (path, cycle) = walk(parents, seen, Seq::empty(), Some(starts[0]));
        lemma_cycle_reports_name_no_container(parents, starts.drop_first(), seen + path.to_set(), t);
        let a: Seq<ProblemView> = match cycle {
            Some(ids) => seq![ProblemView::ContainerCycle { ids: rotate_to_least(ids) }],
            None => Seq::empty(),
        };
        let b = cycle_reports(parents, starts.drop_first(), seen + path.to_set());
        assert forall|p: ProblemView| #[trigger] cycle_reports(parents, starts, seen).contains(p) implies !missing_container(p, t) by {
            lemma_concat_contains(a, b, p);
        }
    }
}

proof fn lemma_layout_problems_name_no_container(e: Seq<(Seq<char>, ElementKind)>, layout: Seq<(Seq<char>, LayoutEntry)>, t: Seq<char>)
    ensures
        forall|p: ProblemView| #[trigger] layout_problems(e, layout).contains(p) ==> !missing_container(p, t),
    decreases layout.len(),
{
    reveal_strlit("layout");
    reveal_strlit("container");
    if layout.len() > 0 {
        lemma_layout_problems_name_no_container(e, layout.drop_last(), t);
        let a = layout_problems(e, layout.drop_last());
        let (id, entry) = layout.last();
        let b = entry_problems(e, id, entry);
        let b1: Seq<ProblemView> = if spec_valid_id(id) { Seq::empty() } else { seq![ProblemView::InvalidId { id }] };
        let b2: Seq<ProblemView> = if lookup(e, id) is Some {
            Seq::empty()
        } else {
            seq![ProblemView::MissingReference { id, field: "layout"@, target: id }]
        };
        let b3: Seq<ProblemView> = if spec_is_finite(entry.x) && spec_is_finite(entry.y) {
            Seq::empty()
        } else {
            seq![ProblemView::InvalidLayout { id, message: "coordinates must be finite"@ }]
        };
        let b4: Seq<ProblemView> = match entry.size {
            None => Seq::empty(),
            Some(size) => (if lookup(e, id) == Some(ElementKind::Container) {
                Seq::empty()
            } else {
                seq![ProblemView::InvalidLayout { id, message: "only containers may have a size"@ }]
            }) + (if spec_is_finite(size.width) && spec_is_finite(size.height) {
                Seq::empty()
            } else {
                seq![ProblemView::InvalidLayout { id, message: "size must be finite"@ }]
            }),
        };
        assert(b =~= b1 + b2 + b3 + b4);
        assert("layout"@.len() != "container"@.len());
        assert forall|p: ProblemView| #[trigger] layout_problems(e, layout).contains(p) implies !missing_container(p, t) by {
            lemma_concat_contains(a, b, p);
            if b.contains(p) {
                lemma_concat_contains(b1 + b2 + b3, b4, p);
                if (b1 + b2 + b3).contains(p) {
                    lemma_concat_contains(b1 + b2, b3, p);
                    if (b1 + b2).contains(p) {
                        lemma_concat_contains(b1, b2, p);
                    }
                }
                if b4.contains(p) {
                    if let Some(size) = entry.size {
                        let c1: Seq<ProblemView> = if lookup(e, id) == Some(ElementKind::Container) {
                            Seq::empty()
                        } else {
                            seq![ProblemView::InvalidLayout { id, message: "only containers may have a size"@ }]
                        };
                        let c2: Seq<ProblemView> = if spec_is_finite(size.width) && spec_is_finite(size.height) {
                            Seq::empty()
                        } else {
                            seq![ProblemView::InvalidLayout { id, message: "size must be finite"@ }]
                        };
                        lemma_concat_contains(c1, c2, p);
                    }
                }
            }
        }
    }
}

proof fn lemma_membership_names_a_node(e: Seq<(Seq<char>, ElementKind)>, nodes: Seq<NodeView>, t: Seq<char>)
    ensures
        forall|p: ProblemView| #[trigger] membership_problems(e, nodes).contains(p) && missing_container(p, t)
            ==> exists|j: int| 0 <= j < nodes.len() && (#[trigger] nodes[j]).container == Some(t),
    decreases nodes.len(),
{
    if nodes.len() > 0 {
        lemma_membership_names_a_node(e, nodes.drop_last(), t);
        let n = nodes.last();
        let a = membership_problems(e, nodes.drop_last());
        let b = match n.container {
            Some(target) => reference_problems(e, n.id, "container"@, target, container_kinds()),
            None => Seq::empty(),
        };
        assert forall|p: ProblemView| #[trigger] membership_problems(e, nodes).contains(p) && missing_container(p, t)
            implies exists|j: int| 0 <= j < nodes.len() && (#[trigger] nodes[j]).container == Some(t) by {
            lemma_concat_contains(a, b, p);
            if a.contains(p) {
                let j = choose|j: int| 0 <= j < nodes.drop_last().len() && (#[trigger] nodes.drop_last()[j]).container == Some(t);
                assert(nodes[j] == nodes.drop_last()[j]);
            } else {
                let k = choose|k: int| 0 <= k < b.len() && b[k] == p;
                assert(b.len() == 1);
                assert(nodes[nodes.len() - 1] == n);
            }
        }
    }
}

/// A design is reported to have a node in a missing container `target` only
/// when some node's container is `target`.
pub proof fn lemma_missing_container_named_by_a_node(d: DesignView, t: Seq<char>)
    ensures
        forall|p: ProblemView| #[trigger] spec_validate(d).contains(p) && missing_container(p, t)
            ==> exists|j: int| 0 <= j < d.nodes.len() && (#[trigger] d.nodes[j]).container == Some(t),
{
    let e = element_entries(d);
    lemma_id_problems_name_no_container(e, t);
    lemma_membership_names_a_node(e, d.nodes, t);
    lemma_parent_problems_name_no_container(e, d.containers, t);
    lemma_edge_problems_name_no_container(e, d.edges, t);
    lemma_note_problems_name_no_container(e, d.notes, t);
    let parents = parent_pairs(d.containers);
    lemma_cycle_reports_name_no_container(parents, sorted_ids(key_set(parents)), Set::empty(), t);
    lemma_layout_problems_name_no_container(e, d.layout, t);
    let s1 = id_problems(e);
    let s2 = membership_problems(e, d.nodes);
    let s3 = parent_problems(e, d.containers);
    let s4 = edge_problems(e, d.edges);
    let s5 = note_problems(e, d.notes);
    let s6 = cycle_problems(d.containers);
    let s7 = layout_problems(e, d.layout);
    assert forall|p: ProblemView| #[trigger] spec_validate(d).contains(p) && missing_container(p, t)
        implies exists|j: int| 0 <= j < d.nodes.len() && (#[trigger] d.nodes[j]).container == Some(t) by {
        lemma_concat_contains(s1 + s2 + s3 + s4 + s5 + s6, s7, p);
        if (s1 + s2 + s3 + s4 + s5 + s6).contains(p) {
            lemma_concat_contains(s1 + s2 + s3 + s4 + s5, s6, p);
            if (s1 + s2 + s3 + s4 + s5).contains(p) {
                lemma_concat_contains(s1 + s2 + s3 + s4, s5, p);
                if (s1 + s2 + s3 + s4).contains(p) {
                    lemma_concat_contains(s1 + s2 + s3, s4, p);
                    if (s1 + s2 + s3).contains(p) {
                        lemma_concat_contains(s1 + s2, s3, p);
                        if (s1 + s2).contains(p) {
                            lemma_concat_contains(s1, s2, p);
                        }
                    }
                }
            }
        }
    }
}
} // verus!
