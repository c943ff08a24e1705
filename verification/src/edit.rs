//! Validated edits: each builds a candidate design and commits it only if
//! the whole candidate has no problems.

use vstd::prelude::*;

use crate::error::{not_found, reports, DesignError};
use crate::id_map::{key_set, without, IdMap};
use crate::model::{
    clone_opt, views, Container, ContainerView, Design, DesignView, Edge, EdgeKind, EdgeView, Node,
    NodeKind, NodeView, Note, NoteView,
};
use crate::order::spec_id_order;
use crate::validation::{spec_is_valid, spec_validate, validate};

verus! {

/// A change to an optional field, distinguishing preservation from removal.
#[derive(Clone, Debug, Default)]
pub enum OptionalUpdate<T> {
    #[default]
    Keep,
    Replace(T),
    Clear,
}

/// The field after an update.
pub open spec fn updated<T>(update: OptionalUpdate<T>, field: Option<T>) -> Option<T> {
    match update {
        OptionalUpdate::Keep => field,
        OptionalUpdate::Replace(value) => Some(value),
        OptionalUpdate::Clear => None,
    }
}

/// A text field after an update, as characters.
pub open spec fn updated_text(update: OptionalUpdate<String>, field: Option<Seq<char>>) -> Option<Seq<char>> {
    match update {
        OptionalUpdate::Keep => field,
        OptionalUpdate::Replace(value) => Some(value@),
        OptionalUpdate::Clear => None,
    }
}

impl<T> OptionalUpdate<T> {
    pub fn apply(self, field: &mut Option<T>)
        ensures
            *final(field) == updated(self, *old(field)),
    {
        match self {
            OptionalUpdate::Keep => {},
            OptionalUpdate::Replace(value) => *field = Some(value),
            OptionalUpdate::Clear => *field = None,
        }
    }
}

/// Changes to design metadata; omitted fields preserve their current values.
#[derive(Clone, Debug, Default)]
pub struct DesignUpdate {
    pub title: Option<String>,
    pub description: OptionalUpdate<String>,
}

/// Fields to change; `None` preserves the current value.
/// Optional fields use `OptionalUpdate` to distinguish setting and clearing.
#[derive(Clone, Debug, Default)]
pub struct NodeUpdate {
    pub kind: Option<NodeKind>,
    pub label: Option<String>,
    pub description: OptionalUpdate<String>,
    pub tags: Option<Vec<String>>,
    pub container: OptionalUpdate<String>,
}

/// Fields to change; `None` preserves the current value.
/// Optional fields use `OptionalUpdate` to distinguish setting and clearing.
#[derive(Clone, Debug, Default)]
pub struct ContainerUpdate {
    pub label: Option<String>,
    pub description: OptionalUpdate<String>,
    pub parent: OptionalUpdate<String>,
}

/// Fields to change; `None` preserves the current value.
/// Optional fields use `OptionalUpdate` to distinguish setting and clearing.
#[derive(Clone, Debug, Default)]
pub struct EdgeUpdate {
    pub from: Option<String>,
    pub to: Option<String>,
    pub kind: Option<EdgeKind>,
    pub label: OptionalUpdate<String>,
    pub bidirectional: Option<bool>,
}

/// Fields to change; `None` preserves the current value.
/// Optional fields use `OptionalUpdate` to distinguish setting and clearing.
#[derive(Clone, Debug, Default)]
pub struct NoteUpdate {
    pub text: Option<String>,
    pub on: OptionalUpdate<String>,
}

// ---------------------------------------------------------------------------
// The edited values

pub open spec fn text_or(value: Option<String>, current: Seq<char>) -> Seq<char> {
    match value {
        Some(v) => v@,
        None => current,
    }
}

pub open spec fn with_metadata(d: DesignView, update: DesignUpdate) -> DesignView {
    DesignView {
        title: text_or(update.title, d.title),
        description: updated_text(update.description, d.description),
        ..d
    }
}

pub open spec fn updated_node(n: NodeView, u: NodeUpdate) -> NodeView {
    NodeView {
        id: n.id,
        kind: match u.kind {
            Some(k) => k,
            None => n.kind,
        },
        label: text_or(u.label, n.label),
        description: updated_text(u.description, n.description),
        tags: match u.tags {
            Some(t) => t.deep_view(),
            None => n.tags,
        },
        container: updated_text(u.container, n.container),
    }
}

pub open spec fn updated_container(c: ContainerView, u: ContainerUpdate) -> ContainerView {
    ContainerView {
        id: c.id,
        label: text_or(u.label, c.label),
        description: updated_text(u.description, c.description),
        parent: updated_text(u.parent, c.parent),
    }
}

pub open spec fn updated_edge(e: EdgeView, u: EdgeUpdate) -> EdgeView {
    EdgeView {
        id: e.id,
        from: text_or(u.from, e.from),
        to: text_or(u.to, e.to),
        kind: match u.kind {
            Some(k) => k,
            None => e.kind,
        },
        label: updated_text(u.label, e.label),
        bidirectional: match u.bidirectional {
            Some(b) => b,
            None => e.bidirectional,
        },
    }
}

pub open spec fn updated_note(n: NoteView, u: NoteUpdate) -> NoteView {
    NoteView { id: n.id, text: text_or(u.text, n.text), on: updated_text(u.on, n.on) }
}

/// What updating node `id` gives: refused when there is no such node;
/// otherwise the design with the node updated is committed when valid.
pub open spec fn sets_node(before: DesignView, id: Seq<char>, update: NodeUpdate, after: DesignView, result: Result<Node, DesignError>) -> bool {
    match first_position(node_ids(before.nodes), id) {
        None => after == before && (result matches Err(e) && not_found(e, "node"@, id)),
        Some(i) => {
            let record = updated_node(before.nodes[i], update);
            &&& committed(before, after, DesignView { nodes: before.nodes.update(i, record), ..before }, result)
            &&& result matches Ok(r) ==> r@ == record
        },
    }
}

/// The outcome of committing `candidate` over `before`: it is committed
/// exactly when it has no problems; otherwise the design is unchanged and
/// the error lists every problem of the candidate.
pub open spec fn committed<T>(before: DesignView, after: DesignView, candidate: DesignView, result: Result<T, DesignError>) -> bool {
    &&& result is Ok <==> spec_is_valid(candidate)
    &&& result is Ok ==> after == candidate
    &&& result matches Err(e) ==> after == before && reports(e, spec_validate(candidate))
}

/// The first position holding `id`.
pub open spec fn first_position(ids: Seq<Seq<char>>, id: Seq<char>) -> Option<int>
    decreases ids.len(),
{
    if ids.len() == 0 {
        None
    } else if ids[0] == id {
        Some(0)
    } else {
        match first_position(ids.drop_first(), id) {
            Some(i) => Some(i + 1),
            None => None,
        }
    }
}

pub proof fn lemma_first_position(ids: Seq<Seq<char>>, id: Seq<char>, i: int)
    requires
        0 <= i <= ids.len(),
        forall|j: int| 0 <= j < i ==> ids[j] != id,
    ensures
        i < ids.len() && ids[i] == id ==> first_position(ids, id) == Some(i),
        i == ids.len() ==> first_position(ids, id) is None,
    decreases i,
{
    if i > 0 {
        lemma_first_position(ids.drop_first(), id, i - 1);
    }
}

pub proof fn lemma_first_position_found(ids: Seq<Seq<char>>, id: Seq<char>)
    ensures
        first_position(ids, id) matches Some(i) ==> 0 <= i < ids.len() && ids[i] == id,
    decreases ids.len(),
{
    if ids.len() > 0 {
        lemma_first_position_found(ids.drop_first(), id);
    }
}

pub open spec fn node_ids(s: Seq<NodeView>) -> Seq<Seq<char>> {
    s.map_values(|n: NodeView| n.id)
}

pub open spec fn container_ids(s: Seq<ContainerView>) -> Seq<Seq<char>> {
    s.map_values(|c: ContainerView| c.id)
}

pub open spec fn edge_ids(s: Seq<EdgeView>) -> Seq<Seq<char>> {
    s.map_values(|e: EdgeView| e.id)
}

pub open spec fn note_ids(s: Seq<NoteView>) -> Seq<Seq<char>> {
    s.map_values(|n: NoteView| n.id)
}


pub(crate) fn node_position(items: &Vec<Node>, id: &str) -> (p: Option<usize>)
    ensures
        match p {
            Some(i) => i < items.len() && first_position(node_ids(views(items@)), id@) == Some(i as int),
            None => first_position(node_ids(views(items@)), id@) is None,
        },
{
    let ghost ids = node_ids(views(items@));
    let mut i: usize = 0;
    while i < items.len()
        invariant
            ids == node_ids(views(items@)),
            i <= items.len(),
            forall|j: int| 0 <= j < i ==> ids[j] != id@,
        decreases items.len() - i,
    {
        if crate::text::str_eq(items[i].id.as_str(), id) {
            proof {
                lemma_first_position(ids, id@, i as int);
            }
            return Some(i);
        }
        i = i + 1;
    }
    proof {
        lemma_first_position(ids, id@, i as int);
    }
    None
}

pub(crate) fn container_position(items: &Vec<Container>, id: &str) -> (p: Option<usize>)
    ensures
        match p {
            Some(i) => i < items.len() && first_position(container_ids(views(items@)), id@) == Some(i as int),
            None => first_position(container_ids(views(items@)), id@) is None,
        },
{
    let ghost ids = container_ids(views(items@));
    let mut i: usize = 0;
    while i < items.len()
        invariant
            ids == container_ids(views(items@)),
            i <= items.len(),
            forall|j: int| 0 <= j < i ==> ids[j] != id@,
        decreases items.len() - i,
    {
        if crate::text::str_eq(items[i].id.as_str(), id) {
            proof {
                lemma_first_position(ids, id@, i as int);
            }
            return Some(i);
        }
        i = i + 1;
    }
    proof {
        lemma_first_position(ids, id@, i as int);
    }
    None
}

pub(crate) fn edge_position(items: &Vec<Edge>, id: &str) -> (p: Option<usize>)
    ensures
        match p {
            Some(i) => i < items.len() && first_position(edge_ids(views(items@)), id@) == Some(i as int),
            None => first_position(edge_ids(views(items@)), id@) is None,
        },
{
    let ghost ids = edge_ids(views(items@));
    let mut i: usize = 0;
    while i < items.len()
        invariant
            ids == edge_ids(views(items@)),
            i <= items.len(),
            forall|j: int| 0 <= j < i ==> ids[j] != id@,
        decreases items.len() - i,
    {
        if crate::text::str_eq(items[i].id.as_str(), id) {
            proof {
                lemma_first_position(ids, id@, i as int);
            }
            return Some(i);
        }
        i = i + 1;
    }
    proof {
        lemma_first_position(ids, id@, i as int);
    }
    None
}

pub(crate) fn note_position(items: &Vec<Note>, id: &str) -> (p: Option<usize>)
    ensures
        match p {
            Some(i) => i < items.len() && first_position(note_ids(views(items@)), id@) == Some(i as int),
            None => first_position(note_ids(views(items@)), id@) is None,
        },
{
    let ghost ids = note_ids(views(items@));
    let mut i: usize = 0;
    while i < items.len()
        invariant
            ids == note_ids(views(items@)),
            i <= items.len(),
            forall|j: int| 0 <= j < i ==> ids[j] != id@,
        decreases items.len() - i,
    {
        if crate::text::str_eq(items[i].id.as_str(), id) {
            proof {
                lemma_first_position(ids, id@, i as int);
            }
            return Some(i);
        }
        i = i + 1;
    }
    proof {
        lemma_first_position(ids, id@, i as int);
    }
    None
}

// ---------------------------------------------------------------------------
// Commit

impl Design {
    /// Replace this design by `candidate` when the candidate has no problems.
    fn commit(&mut self, candidate: Design) -> (result: Result<(), DesignError>)
        ensures
            committed(old(self)@, final(self)@, candidate@, result),
    {
        let problems = validate(&candidate);
        if problems.len() > 0 {
            return Err(DesignError::Validation(problems));
        }
        *self = candidate;
        Ok(())
    }

    /// Update metadata without changing architecture or saved positions.
    /// Returns the updated design.
    pub fn set(&mut self, update: DesignUpdate) -> (result: Result<Design, DesignError>)
        ensures
            committed(old(self)@, final(self)@, with_metadata(old(self)@, update), result),
            result matches Ok(d) ==> d@ == with_metadata(old(self)@, update),
    {
        let ghost expected = with_metadata(self@, update);
        let mut candidate = self.clone();
        if let Some(title) = update.title {
            candidate.title = title;
        }
        update.description.apply(&mut candidate.description);
        proof {
            assert(candidate@ == expected);
        }
        let copy = candidate.clone();
        self.commit(candidate)?;
        Ok(copy)
    }

    /// Add a node and validate the whole design.
    pub fn add_node(&mut self, record: Node) -> (result: Result<Node, DesignError>)
        ensures
            committed(old(self)@, final(self)@, DesignView { nodes: old(self)@.nodes.push(record@), ..old(self)@ }, result),
            result matches Ok(r) ==> r@ == record@,
    {
        let mut candidate = self.clone();
        let copy = record.clone();
        candidate.nodes.push(record);
        proof {
            assert(views(candidate.nodes@) =~= views(old(self).nodes@).push(record@));
            assert(candidate@ =~= DesignView { nodes: old(self)@.nodes.push(record@), ..old(self)@ });
        }
        self.commit(candidate)?;
        Ok(copy)
    }

    /// Add a container and validate the whole design.
    pub fn add_container(&mut self, record: Container) -> (result: Result<Container, DesignError>)
        ensures
            committed(old(self)@, final(self)@, DesignView { containers: old(self)@.containers.push(record@), ..old(self)@ }, result),
            result matches Ok(r) ==> r@ == record@,
    {
        let mut candidate = self.clone();
        let copy = record.clone();
        candidate.containers.push(record);
        proof {
            assert(views(candidate.containers@) =~= views(old(self).containers@).push(record@));
            assert(candidate@ =~= DesignView { containers: old(self)@.containers.push(record@), ..old(self)@ });
        }
        self.commit(candidate)?;
        Ok(copy)
    }

    /// Add an edge and validate the whole design.
    pub fn add_edge(&mut self, record: Edge) -> (result: Result<Edge, DesignError>)
        ensures
            committed(old(self)@, final(self)@, DesignView { edges: old(self)@.edges.push(record@), ..old(self)@ }, result),
            result matches Ok(r) ==> r@ == record@,
    {
        let mut candidate = self.clone();
        let copy = record.clone();
        candidate.edges.push(record);
        proof {
            assert(views(candidate.edges@) =~= views(old(self).edges@).push(record@));
            assert(candidate@ =~= DesignView { edges: old(self)@.edges.push(record@), ..old(self)@ });
        }
        self.commit(candidate)?;
        Ok(copy)
    }

    /// Add a note and validate the whole design.
    pub fn add_note(&mut self, record: Note) -> (result: Result<Note, DesignError>)
        ensures
            committed(old(self)@, final(self)@, DesignView { notes: old(self)@.notes.push(record@), ..old(self)@ }, result),
            result matches Ok(r) ==> r@ == record@,
    {
        let mut candidate = self.clone();
        let copy = record.clone();
        candidate.notes.push(record);
        proof {
            assert(views(candidate.notes@) =~= views(old(self).notes@).push(record@));
            assert(candidate@ =~= DesignView { notes: old(self)@.notes.push(record@), ..old(self)@ });
        }
        self.commit(candidate)?;
        Ok(copy)
    }

    /// Update an existing node, preserving fields that are not supplied.
    pub fn set_node(&mut self, id: &str, update: NodeUpdate) -> (result: Result<Node, DesignError>)
        ensures
            sets_node(old(self)@, id@, update, final(self)@, result),
    {
        let i = match node_position(&self.nodes, id) {
            Some(i) => i,
            None => {
                return Err(DesignError::NotFound { kind: "node", id: id.to_owned() });
            },
        };
        let ghost expected = updated_node(self@.nodes[i as int], update);
        let mut candidate = self.clone();
        let mut record = self.nodes[i].clone();
        if let Some(value) = update.kind {
            record.kind = value;
        }
        if let Some(value) = update.label {
            record.label = value;
        }
        update.description.apply(&mut record.description);
        if let Some(value) = update.tags {
            record.tags = value;
        }
        update.container.apply(&mut record.container);
        proof {
            assert(record@ == expected);
        }
        let copy = record.clone();
        candidate.nodes.set(i, record);
        proof {
            assert(views(candidate.nodes@) =~= views(old(self).nodes@).update(i as int, expected));
            assert(candidate@ =~= DesignView { nodes: old(self)@.nodes.update(i as int, expected), ..old(self)@ });
        }
        self.commit(candidate)?;
        Ok(copy)
    }

    /// Update an existing container, preserving fields that are not supplied.
    pub fn set_container(&mut self, id: &str, update: ContainerUpdate) -> (result: Result<Container, DesignError>)
        ensures
            match first_position(container_ids(old(self)@.containers), id@) {
                None => final(self)@ == old(self)@ && (result matches Err(e) && not_found(e, "container"@, id@)),
                Some(i) => {
                    let record = updated_container(old(self)@.containers[i], update);
                    &&& committed(old(self)@, final(self)@, DesignView { containers: old(self)@.containers.update(i, record), ..old(self)@ }, result)
                    &&& result matches Ok(r) ==> r@ == record
                },
            },
    {
        let i = match container_position(&self.containers, id) {
            Some(i) => i,
            None => {
                return Err(DesignError::NotFound { kind: "container", id: id.to_owned() });
            },
        };
        let ghost expected = updated_container(self@.containers[i as int], update);
        let mut candidate = self.clone();
        let mut record = self.containers[i].clone();
        if let Some(value) = update.label {
            record.label = value;
        }
        update.description.apply(&mut record.description);
        update.parent.apply(&mut record.parent);
        proof {
            assert(record@ == expected);
        }
        let copy = record.clone();
        candidate.containers.set(i, record);
        proof {
            assert(views(candidate.containers@) =~= views(old(self).containers@).update(i as int, expected));
            assert(candidate@ =~= DesignView { containers: old(self)@.containers.update(i as int, expected), ..old(self)@ });
        }
        self.commit(candidate)?;
        Ok(copy)
    }

    /// Update an existing edge, preserving fields that are not supplied.
    pub fn set_edge(&mut self, id: &str, update: EdgeUpdate) -> (result: Result<Edge, DesignError>)
        ensures
            match first_position(edge_ids(old(self)@.edges), id@) {
                None => final(self)@ == old(self)@ && (result matches Err(e) && not_found(e, "edge"@, id@)),
                Some(i) => {
                    let record = updated_edge(old(self)@.edges[i], update);
                    &&& committed(old(self)@, final(self)@, DesignView { edges: old(self)@.edges.update(i, record), ..old(self)@ }, result)
                    &&& result matches Ok(r) ==> r@ == record
                },
            },
    {
        let i = match edge_position(&self.edges, id) {
            Some(i) => i,
            None => {
                return Err(DesignError::NotFound { kind: "edge", id: id.to_owned() });
            },
        };
        let ghost expected = updated_edge(self@.edges[i as int], update);
        let mut candidate = self.clone();
        let mut record = self.edges[i].clone();
        if let Some(value) = update.from {
            record.from = value;
        }
        if let Some(value) = update.to {
            record.to = value;
        }
        if let Some(value) = update.kind {
            record.kind = value;
        }
        update.label.apply(&mut record.label);
        if let Some(value) = update.bidirectional {
            record.bidirectional = value;
        }
        proof {
            assert(record@ == expected);
        }
        let copy = record.clone();
        candidate.edges.set(i, record);
        proof {
            assert(views(candidate.edges@) =~= views(old(self).edges@).update(i as int, expected));
            assert(candidate@ =~= DesignView { edges: old(self)@.edges.update(i as int, expected), ..old(self)@ });
        }
        self.commit(candidate)?;
        Ok(copy)
    }

    /// Update an existing note, preserving fields that are not supplied.
    pub fn set_note(&mut self, id: &str, update: NoteUpdate) -> (result: Result<Note, DesignError>)
        ensures
            match first_position(note_ids(old(self)@.notes), id@) {
                None => final(self)@ == old(self)@ && (result matches Err(e) && not_found(e, "note"@, id@)),
                Some(i) => {
                    let record = updated_note(old(self)@.notes[i], update);
                    &&& committed(old(self)@, final(self)@, DesignView { notes: old(self)@.notes.update(i, record), ..old(self)@ }, result)
                    &&& result matches Ok(r) ==> r@ == record
                },
            },
    {
        let i = match note_position(&self.notes, id) {
            Some(i) => i,
            None => {
                return Err(DesignError::NotFound { kind: "note", id: id.to_owned() });
            },
        };
        let ghost expected = updated_note(self@.notes[i as int], update);
        let mut candidate = self.clone();
        let mut record = self.notes[i].clone();
        if let Some(value) = update.text {
            record.text = value;
        }
        update.on.apply(&mut record.on);
        proof {
            assert(record@ == expected);
        }
        let copy = record.clone();
        candidate.notes.set(i, record);
        proof {
            assert(views(candidate.notes@) =~= views(old(self).notes@).update(i as int, expected));
            assert(candidate@ =~= DesignView { notes: old(self)@.notes.update(i as int, expected), ..old(self)@ });
        }
        self.commit(candidate)?;
        Ok(copy)
    }
}


// ---------------------------------------------------------------------------
// Removal

/// The edge has `id` as an endpoint.
pub open spec fn touches(e: EdgeView, id: Seq<char>) -> bool {
    e.from == id || e.to == id
}

/// The edges that do not touch `id`, in order.
pub open spec fn kept_edges(edges: Seq<EdgeView>, id: Seq<char>) -> Seq<EdgeView>
    decreases edges.len(),
{
    if edges.len() == 0 {
        edges
    } else {
        let rest = kept_edges(edges.drop_last(), id);
        if touches(edges.last(), id) {
            rest
        } else {
            rest.push(edges.last())
        }
    }
}

/// The ids of the edges that touch `id`.
pub open spec fn touching_edge_ids(edges: Seq<EdgeView>, id: Seq<char>) -> Set<Seq<char>>
    decreases edges.len(),
{
    if edges.len() == 0 {
        Set::empty()
    } else {
        let rest = touching_edge_ids(edges.drop_last(), id);
        if touches(edges.last(), id) {
            rest.insert(edges.last().id)
        } else {
            rest
        }
    }
}

/// Notes in order: one attached to a removed id is removed too, and its id
/// joins the removed ids. Returns the kept notes and every removed id.
pub open spec fn note_sweep(notes: Seq<NoteView>, removed: Set<Seq<char>>) -> (Seq<NoteView>, Set<Seq<char>>)
    decreases notes.len(),
{
    if notes.len() == 0 {
        (notes, removed)
    } else {
        let (kept, gone) = note_sweep(notes.drop_last(), removed);
        let note = notes.last();
        if note.on is Some && gone.contains(note.on.unwrap()) {
            (kept, gone.insert(note.id))
        } else {
            (kept.push(note), gone)
        }
    }
}

/// After removing element `id`: its edges, the notes attached to it or to
/// those edges (and, in order, to removed notes), and the saved positions of
/// everything removed are gone too.
pub open spec fn without_dependents(d: DesignView, id: Seq<char>) -> DesignView {
    let removed = Set::empty().insert(id) + touching_edge_ids(d.edges, id);
    let (notes, gone) = note_sweep(d.notes, removed);
    DesignView { edges: kept_edges(d.edges, id), notes, layout: without(d.layout, gone), ..d }
}

/// Nodes in container `id` move to `parent`.
pub open spec fn reparent_nodes(nodes: Seq<NodeView>, id: Seq<char>, parent: Option<Seq<char>>) -> Seq<NodeView> {
    nodes.map_values(|n: NodeView| if n.container == Some(id) { NodeView { container: parent, ..n } } else { n })
}

/// Containers inside container `id` move to `parent`.
pub open spec fn reparent_containers(containers: Seq<ContainerView>, id: Seq<char>, parent: Option<Seq<char>>) -> Seq<ContainerView> {
    containers.map_values(|c: ContainerView| if c.parent == Some(id) { ContainerView { parent, ..c } } else { c })
}

/// The design after removing container `index`: its direct children move to its parent.
pub open spec fn without_container(d: DesignView, index: int) -> DesignView {
    let record = d.containers[index];
    let rest = d.containers.remove(index);
    without_dependents(
        DesignView {
            nodes: reparent_nodes(d.nodes, record.id, record.parent),
            containers: reparent_containers(rest, record.id, record.parent),
            ..d
        },
        record.id,
    )
}

fn is_text(value: &Option<String>, id: &str) -> (same: bool)
    ensures
        same == (value.deep_view() == Some(id@)),
{
    match value {
        Some(v) => crate::text::str_eq(v.as_str(), id),
        None => false,
    }
}

/// The items in stable id order.
pub open spec fn sorted_by_id<V>(items: Seq<V>, ids: Seq<Seq<char>>) -> Seq<V> {
    spec_id_order(ids).map_values(|i: usize| items[i as int])
}

impl Design {
    /// Return the records sorted by id, in a stable order.
    pub fn list_nodes(&self) -> (records: Vec<&Node>)
        ensures
            records@.map_values(|r: &Node| r@) == sorted_by_id(self@.nodes, node_ids(self@.nodes)),
            crate::order::is_id_order(node_ids(self@.nodes), spec_id_order(node_ids(self@.nodes))),
    {
        let mut ids: Vec<String> = Vec::new();
        for i in 0..self.nodes.len()
            invariant
                ids.deep_view() == node_ids(self@.nodes).take(i as int),
        {
            let ghost prev = ids.deep_view();
            ids.push(self.nodes[i].id.clone());
            proof {
                assert(ids.deep_view() =~= prev.push(self@.nodes[i as int].id));
                assert(node_ids(self@.nodes).take(i + 1) =~= node_ids(self@.nodes).take(i as int).push(self@.nodes[i as int].id));
            }
        }
        proof {
            assert(node_ids(self@.nodes).take(self.nodes.len() as int) =~= node_ids(self@.nodes));
        }
        let order = crate::order::id_order(&ids);
        let mut records: Vec<&Node> = Vec::new();
        for k in 0..order.len()
            invariant
                crate::order::is_id_order(node_ids(self@.nodes), order@),
                order@ == spec_id_order(node_ids(self@.nodes)),
                records@.map_values(|r: &Node| r@) == sorted_by_id(self@.nodes, node_ids(self@.nodes)).take(k as int),
        {
            let ghost prev = records@.map_values(|r: &Node| r@);
            records.push(&self.nodes[order[k]]);
            proof {
                assert(records@.map_values(|r: &Node| r@) =~= prev.push(self@.nodes[order@[k as int] as int]));
                assert(sorted_by_id(self@.nodes, node_ids(self@.nodes)).take(k + 1) =~= sorted_by_id(self@.nodes, node_ids(self@.nodes)).take(k as int).push(self@.nodes[order@[k as int] as int]));
            }
        }
        proof {
            assert(sorted_by_id(self@.nodes, node_ids(self@.nodes)).take(order.len() as int) =~= sorted_by_id(self@.nodes, node_ids(self@.nodes)));
        }
        records
    }

    /// Return the records sorted by id, in a stable order.
    pub fn list_containers(&self) -> (records: Vec<&Container>)
        ensures
            records@.map_values(|r: &Container| r@) == sorted_by_id(self@.containers, container_ids(self@.containers)),
            crate::order::is_id_order(container_ids(self@.containers), spec_id_order(container_ids(self@.containers))),
    {
        let mut ids: Vec<String> = Vec::new();
        for i in 0..self.containers.len()
            invariant
                ids.deep_view() == container_ids(self@.containers).take(i as int),
        {
            let ghost prev = ids.deep_view();
            ids.push(self.containers[i].id.clone());
            proof {
                assert(ids.deep_view() =~= prev.push(self@.containers[i as int].id));
                assert(container_ids(self@.containers).take(i + 1) =~= container_ids(self@.containers).take(i as int).push(self@.containers[i as int].id));
            }
        }
        proof {
            assert(container_ids(self@.containers).take(self.containers.len() as int) =~= container_ids(self@.containers));
        }
        let order = crate::order::id_order(&ids);
        let mut records: Vec<&Container> = Vec::new();
        for k in 0..order.len()
            invariant
                crate::order::is_id_order(container_ids(self@.containers), order@),
                order@ == spec_id_order(container_ids(self@.containers)),
                records@.map_values(|r: &Container| r@) == sorted_by_id(self@.containers, container_ids(self@.containers)).take(k as int),
        {
            let ghost prev = records@.map_values(|r: &Container| r@);
            records.push(&self.containers[order[k]]);
            proof {
                assert(records@.map_values(|r: &Container| r@) =~= prev.push(self@.containers[order@[k as int] as int]));
                assert(sorted_by_id(self@.containers, container_ids(self@.containers)).take(k + 1) =~= sorted_by_id(self@.containers, container_ids(self@.containers)).take(k as int).push(self@.containers[order@[k as int] as int]));
            }
        }
        proof {
            assert(sorted_by_id(self@.containers, container_ids(self@.containers)).take(order.len() as int) =~= sorted_by_id(self@.containers, container_ids(self@.containers)));
        }
        records
    }

    /// Return the records sorted by id, in a stable order.
    pub fn list_edges(&self) -> (records: Vec<&Edge>)
        ensures
            records@.map_values(|r: &Edge| r@) == sorted_by_id(self@.edges, edge_ids(self@.edges)),
            crate::order::is_id_order(edge_ids(self@.edges), spec_id_order(edge_ids(self@.edges))),
    {
        let mut ids: Vec<String> = Vec::new();
        for i in 0..self.edges.len()
            invariant
                ids.deep_view() == edge_ids(self@.edges).take(i as int),
        {
            let ghost prev = ids.deep_view();
            ids.push(self.edges[i].id.clone());
            proof {
                assert(ids.deep_view() =~= prev.push(self@.edges[i as int].id));
                assert(edge_ids(self@.edges).take(i + 1) =~= edge_ids(self@.edges).take(i as int).push(self@.edges[i as int].id));
            }
        }
        proof {
            assert(edge_ids(self@.edges).take(self.edges.len() as int) =~= edge_ids(self@.edges));
        }
        let order = crate::order::id_order(&ids);
        let mut records: Vec<&Edge> = Vec::new();
        for k in 0..order.len()
            invariant
                crate::order::is_id_order(edge_ids(self@.edges), order@),
                order@ == spec_id_order(edge_ids(self@.edges)),
                records@.map_values(|r: &Edge| r@) == sorted_by_id(self@.edges, edge_ids(self@.edges)).take(k as int),
        {
            let ghost prev = records@.map_values(|r: &Edge| r@);
            records.push(&self.edges[order[k]]);
            proof {
                assert(records@.map_values(|r: &Edge| r@) =~= prev.push(self@.edges[order@[k as int] as int]));
                assert(sorted_by_id(self@.edges, edge_ids(self@.edges)).take(k + 1) =~= sorted_by_id(self@.edges, edge_ids(self@.edges)).take(k as int).push(self@.edges[order@[k as int] as int]));
            }
        }
        proof {
            assert(sorted_by_id(self@.edges, edge_ids(self@.edges)).take(order.len() as int) =~= sorted_by_id(self@.edges, edge_ids(self@.edges)));
        }
        records
    }

    /// Return the records sorted by id, in a stable order.
    pub fn list_notes(&self) -> (records: Vec<&Note>)
        ensures
            records@.map_values(|r: &Note| r@) == sorted_by_id(self@.notes, note_ids(self@.notes)),
            crate::order::is_id_order(note_ids(self@.notes), spec_id_order(note_ids(self@.notes))),
    {
        let mut ids: Vec<String> = Vec::new();
        for i in 0..self.notes.len()
            invariant
                ids.deep_view() == note_ids(self@.notes).take(i as int),
        {
            let ghost prev = ids.deep_view();
            ids.push(self.notes[i].id.clone());
            proof {
                assert(ids.deep_view() =~= prev.push(self@.notes[i as int].id));
                assert(note_ids(self@.notes).take(i + 1) =~= note_ids(self@.notes).take(i as int).push(self@.notes[i as int].id));
            }
        }
        proof {
            assert(note_ids(self@.notes).take(self.notes.len() as int) =~= note_ids(self@.notes));
        }
        let order = crate::order::id_order(&ids);
        let mut records: Vec<&Note> = Vec::new();
        for k in 0..order.len()
            invariant
                crate::order::is_id_order(note_ids(self@.notes), order@),
                order@ == spec_id_order(note_ids(self@.notes)),
                records@.map_values(|r: &Note| r@) == sorted_by_id(self@.notes, note_ids(self@.notes)).take(k as int),
        {
            let ghost prev = records@.map_values(|r: &Note| r@);
            records.push(&self.notes[order[k]]);
            proof {
                assert(records@.map_values(|r: &Note| r@) =~= prev.push(self@.notes[order@[k as int] as int]));
                assert(sorted_by_id(self@.notes, note_ids(self@.notes)).take(k + 1) =~= sorted_by_id(self@.notes, note_ids(self@.notes)).take(k as int).push(self@.notes[order@[k as int] as int]));
            }
        }
        proof {
            assert(sorted_by_id(self@.notes, note_ids(self@.notes)).take(order.len() as int) =~= sorted_by_id(self@.notes, note_ids(self@.notes)));
        }
        records
    }

    /// Remove `id`'s edges, the notes attached to removed elements, and the
    /// saved positions of everything removed.
    fn remove_dependents(&mut self, id: &str)
        ensures
            final(self)@ == without_dependents(old(self)@, id@),
    {
        broadcast use vstd::set::group_set_axioms;
        let ghost d = self@;
        let mut removed: IdMap<()> = IdMap::new();
        removed.insert(id.to_owned(), ());
        proof {
            assert(key_set(removed@) =~= Set::empty().insert(id@));
        }
        let ghost base = key_set(removed@);
        let mut edges: Vec<Edge> = Vec::new();
        for i in 0..self.edges.len()
            invariant
                d == old(self)@,
                views(self.edges@) == d.edges,
                views(edges@) == kept_edges(d.edges.take(i as int), id@),
                key_set(removed@) == base + touching_edge_ids(d.edges.take(i as int), id@),
                base == Set::empty().insert(id@),
        {
            proof {
                assert(d.edges.take(i + 1).drop_last() =~= d.edges.take(i as int));
                assert(d.edges.take(i + 1).last() == d.edges[i as int]);
            }
            let edge = &self.edges[i];
            let ghost prev = views(edges@);
            let ghost r0 = removed@;
            if crate::text::str_eq(edge.from.as_str(), id) || crate::text::str_eq(edge.to.as_str(), id) {
                removed.insert(edge.id.clone(), ());
                proof {
                    assert(key_set(removed@) =~= key_set(r0).insert(edge.id@));
                }
            } else {
                edges.push(edge.clone());
                proof {
                    assert(views(edges@) =~= prev.push(d.edges[i as int]));
                }
            }
        }
        proof {
            assert(d.edges.take(d.edges.len() as int) =~= d.edges);
        }
        let ghost start = key_set(removed@);
        let mut notes: Vec<Note> = Vec::new();
        for i in 0..self.notes.len()
            invariant
                d == old(self)@,
                views(self.notes@) == d.notes,
                start == Set::empty().insert(id@) + touching_edge_ids(d.edges, id@),
                (views(notes@), key_set(removed@)) == note_sweep(d.notes.take(i as int), start),
        {
            proof {
                assert(d.notes.take(i + 1).drop_last() =~= d.notes.take(i as int));
                assert(d.notes.take(i + 1).last() == d.notes[i as int]);
            }
            let note = &self.notes[i];
            let ghost prev = views(notes@);
            let ghost r0 = removed@;
            let gone = match &note.on {
                Some(target) => removed.contains_key(target.as_str()),
                None => false,
            };
            if gone {
                removed.insert(note.id.clone(), ());
                proof {
                    assert(key_set(removed@) =~= key_set(r0).insert(note.id@));
                }
            } else {
                notes.push(note.clone());
                proof {
                    assert(views(notes@) =~= prev.push(d.notes[i as int]));
                }
            }
        }
        proof {
            assert(d.notes.take(d.notes.len() as int) =~= d.notes);
        }
        self.edges = edges;
        self.notes = notes;
        self.layout.remove_keys(&removed);
        proof {
            assert(self@ =~= without_dependents(d, id@));
        }
    }

    /// Remove a node and clean up dependent records and layout entries.
    pub fn remove_node(&mut self, id: &str) -> (result: Result<Node, DesignError>)
        ensures
            match first_position(node_ids(old(self)@.nodes), id@) {
                None => final(self)@ == old(self)@ && (result matches Err(e) && not_found(e, "node"@, id@)),
                Some(i) => {
                    &&& committed(old(self)@, final(self)@, without_dependents(DesignView { nodes: old(self)@.nodes.remove(i), ..old(self)@ }, id@), result)
                    &&& result matches Ok(r) ==> r@ == old(self)@.nodes[i]
                },
            },
    {
        let i = match node_position(&self.nodes, id) {
            Some(i) => i,
            None => {
                return Err(DesignError::NotFound { kind: "node", id: id.to_owned() });
            },
        };
        let mut candidate = self.clone();
        let record = candidate.nodes.remove(i);
        proof {
            assert(views(candidate.nodes@) =~= views(old(self).nodes@).remove(i as int));
            assert(candidate@ =~= DesignView { nodes: old(self)@.nodes.remove(i as int), ..old(self)@ });
        }
        candidate.remove_dependents(id);
        self.commit(candidate)?;
        Ok(record)
    }

    /// Remove an edge and clean up dependent records and layout entries.
    pub fn remove_edge(&mut self, id: &str) -> (result: Result<Edge, DesignError>)
        ensures
            match first_position(edge_ids(old(self)@.edges), id@) {
                None => final(self)@ == old(self)@ && (result matches Err(e) && not_found(e, "edge"@, id@)),
                Some(i) => {
                    &&& committed(old(self)@, final(self)@, without_dependents(DesignView { edges: old(self)@.edges.remove(i), ..old(self)@ }, id@), result)
                    &&& result matches Ok(r) ==> r@ == old(self)@.edges[i]
                },
            },
    {
        let i = match edge_position(&self.edges, id) {
            Some(i) => i,
            None => {
                return Err(DesignError::NotFound { kind: "edge", id: id.to_owned() });
            },
        };
        let mut candidate = self.clone();
        let record = candidate.edges.remove(i);
        proof {
            assert(views(candidate.edges@) =~= views(old(self).edges@).remove(i as int));
            assert(candidate@ =~= DesignView { edges: old(self)@.edges.remove(i as int), ..old(self)@ });
        }
        candidate.remove_dependents(id);
        self.commit(candidate)?;
        Ok(record)
    }

    /// Remove a note and clean up dependent records and layout entries.
    pub fn remove_note(&mut self, id: &str) -> (result: Result<Note, DesignError>)
        ensures
            match first_position(note_ids(old(self)@.notes), id@) {
                None => final(self)@ == old(self)@ && (result matches Err(e) && not_found(e, "note"@, id@)),
                Some(i) => {
                    &&& committed(old(self)@, final(self)@, without_dependents(DesignView { notes: old(self)@.notes.remove(i), ..old(self)@ }, id@), result)
                    &&& result matches Ok(r) ==> r@ == old(self)@.notes[i]
                },
            },
    {
        let i = match note_position(&self.notes, id) {
            Some(i) => i,
            None => {
                return Err(DesignError::NotFound { kind: "note", id: id.to_owned() });
            },
        };
        let mut candidate = self.clone();
        let record = candidate.notes.remove(i);
        proof {
            assert(views(candidate.notes@) =~= views(old(self).notes@).remove(i as int));
            assert(candidate@ =~= DesignView { notes: old(self)@.notes.remove(i as int), ..old(self)@ });
        }
        candidate.remove_dependents(id);
        self.commit(candidate)?;
        Ok(record)
    }

    /// Remove a container and clean up dependent records and layout entries.
    /// Direct children move to the removed container's parent.
    pub fn remove_container(&mut self, id: &str) -> (result: Result<Container, DesignError>)
        ensures
            removes_container(old(self)@, id@, final(self)@, result),
    {
        let i = match container_position(&self.containers, id) {
            Some(i) => i,
            None => {
                return Err(DesignError::NotFound { kind: "container", id: id.to_owned() });
            },
        };
        let ghost d = self@;
        proof {
            lemma_first_position_found(container_ids(d.containers), id@);
        }
        let mut candidate = self.clone();
        let record = candidate.containers.remove(i);
        proof {
            assert(views(candidate.containers@) =~= d.containers.remove(i as int));
            assert(record@ == d.containers[i as int]);
            assert(record.id@ == id@);
        }
        let n = candidate.nodes.len();
        for j in 0..n
            invariant
                n == d.nodes.len(),
                i < d.containers.len(),
                d == old(self)@,
                record@ == d.containers[i as int],
                record.id@ == id@,
                candidate.nodes.len() == d.nodes.len(),
                forall|k: int| 0 <= k < j ==> #[trigger] views(candidate.nodes@)[k] == reparent_nodes(d.nodes, id@, record@.parent)[k],
                forall|k: int| j <= k < d.nodes.len() ==> #[trigger] views(candidate.nodes@)[k] == d.nodes[k],
                views(candidate.containers@) == d.containers.remove(i as int),
                candidate.title@ == d.title,
                candidate.description.deep_view() == d.description,
                views(candidate.edges@) == d.edges,
                views(candidate.notes@) == d.notes,
                candidate.layout@ == d.layout,
        {
            let ghost prev = views(candidate.nodes@);
            if is_text(&candidate.nodes[j].container, id) {
                let mut node = candidate.nodes[j].clone();
                node.container = clone_opt(&record.parent);
                proof {
                    assert(prev[j as int] == d.nodes[j as int]);
                    assert(node@ =~= NodeView { container: record@.parent, ..d.nodes[j as int] });
                    assert(reparent_nodes(d.nodes, id@, record@.parent)[j as int] == NodeView { container: record@.parent, ..d.nodes[j as int] });
                }
                candidate.nodes.set(j, node);
                proof {
                    assert(views(candidate.nodes@) =~= prev.update(j as int, reparent_nodes(d.nodes, id@, record@.parent)[j as int]));
                }
            }
            proof {
                assert(views(candidate.nodes@)[j as int] == reparent_nodes(d.nodes, id@, record@.parent)[j as int]);
                assert forall|k: int| 0 <= k < j + 1 implies #[trigger] views(candidate.nodes@)[k] == reparent_nodes(d.nodes, id@, record@.parent)[k] by {
                    if k < j {
                        assert(views(candidate.nodes@)[k] == prev[k]);
                    }
                }
                assert forall|k: int| j + 1 <= k < d.nodes.len() implies #[trigger] views(candidate.nodes@)[k] == d.nodes[k] by {
                    assert(views(candidate.nodes@)[k] == prev[k]);
                }
            }
        }
        let ghost rest = d.containers.remove(i as int);
        let m = candidate.containers.len();
        for j in 0..m
            invariant
                m == rest.len(),
                i < d.containers.len(),
                d == old(self)@,
                rest == d.containers.remove(i as int),
                record@ == d.containers[i as int],
                record.id@ == id@,
                candidate.containers.len() == rest.len(),
                forall|k: int| 0 <= k < j ==> #[trigger] views(candidate.containers@)[k] == reparent_containers(rest, id@, record@.parent)[k],
                forall|k: int| j <= k < rest.len() ==> #[trigger] views(candidate.containers@)[k] == rest[k],
                views(candidate.nodes@) == reparent_nodes(d.nodes, id@, record@.parent),
                candidate.title@ == d.title,
                candidate.description.deep_view() == d.description,
                views(candidate.edges@) == d.edges,
                views(candidate.notes@) == d.notes,
                candidate.layout@ == d.layout,
        {
            let ghost prev = views(candidate.containers@);
            if is_text(&candidate.containers[j].parent, id) {
                let mut child = candidate.containers[j].clone();
                child.parent = clone_opt(&record.parent);
                proof {
                    assert(prev[j as int] == rest[j as int]);
                    assert(child@ =~= ContainerView { parent: record@.parent, ..rest[j as int] });
                    assert(reparent_containers(rest, id@, record@.parent)[j as int] == ContainerView { parent: record@.parent, ..rest[j as int] });
                }
                candidate.containers.set(j, child);
                proof {
                    assert(views(candidate.containers@) =~= prev.update(j as int, reparent_containers(rest, id@, record@.parent)[j as int]));
                }
            }
            proof {
                assert(views(candidate.containers@)[j as int] == reparent_containers(rest, id@, record@.parent)[j as int]);
                assert forall|k: int| 0 <= k < j + 1 implies #[trigger] views(candidate.containers@)[k] == reparent_containers(rest, id@, record@.parent)[k] by {
                    if k < j {
                        assert(views(candidate.containers@)[k] == prev[k]);
                    }
                }
                assert forall|k: int| j + 1 <= k < rest.len() implies #[trigger] views(candidate.containers@)[k] == rest[k] by {
                    assert(views(candidate.containers@)[k] == prev[k]);
                }
            }
        }
        proof {
            assert(views(candidate.nodes@) =~= reparent_nodes(d.nodes, id@, record@.parent));
            assert(views(candidate.containers@) =~= reparent_containers(rest, id@, record@.parent));
            assert(candidate@ =~= DesignView {
                nodes: reparent_nodes(d.nodes, record@.id, record@.parent),
                containers: reparent_containers(rest, record@.id, record@.parent),
                ..d
            });
        }
        candidate.remove_dependents(id);
        self.commit(candidate)?;
        Ok(record)
    }
}


/// What removing container `id` gives: refused when there is no such
/// container; otherwise the design without it is committed when valid.
pub open spec fn removes_container(before: DesignView, id: Seq<char>, after: DesignView, result: Result<Container, DesignError>) -> bool {
    match first_position(container_ids(before.containers), id) {
        None => after == before && (result matches Err(e) && not_found(e, "container"@, id)),
        Some(i) => {
            &&& committed(before, after, without_container(before, i), result)
            &&& result matches Ok(r) ==> r@ == before.containers[i]
        },
    }
}

/// Removing a container hands the nodes it held to the container around it,
/// or to the top level when it had none. A committed removal leaves each
/// node that was in the removed container in that container's parent and
/// every other node where it was; a refused removal never reports a node
/// left in the removed container.
pub proof fn law_removed_container_hands_its_nodes_up(
    before: DesignView,
    id: Seq<char>,
    after: DesignView,
    result: Result<Container, DesignError>,
)
    requires
        removes_container(before, id, after, result),
        forall|k: int| 0 <= k < before.containers.len() ==> (#[trigger] before.containers[k]).parent != Some(before.containers[k].id),
    ensures
        result matches Err(DesignError::Validation(ps)) ==> forall|k: int|
            0 <= k < ps@.len() ==> !crate::validation::missing_container(#[trigger] ps@[k]@, id),
        result matches Ok(r) ==> {
            &&& r@.id == id
            &&& after.nodes.len() == before.nodes.len()
            &&& forall|j: int| 0 <= j < before.nodes.len() ==> (#[trigger] after.nodes[j]).id == before.nodes[j].id
                && after.nodes[j].container == if before.nodes[j].container == Some(id) {
                    r@.parent
                } else {
                    before.nodes[j].container
                }
        },
{
    lemma_first_position_found(container_ids(before.containers), id);
    if let Some(i) = first_position(container_ids(before.containers), id) {
        let record = before.containers[i];
        assert(record.id == id);
        let candidate = without_container(before, i);
        assert(candidate.nodes == reparent_nodes(before.nodes, id, record.parent));
        assert(record.parent != Some(id));
        if let Err(DesignError::Validation(ps)) = result {
            crate::validation::lemma_missing_container_named_by_a_node(candidate, id);
            assert forall|k: int| 0 <= k < ps@.len() implies !crate::validation::missing_container(#[trigger] ps@[k]@, id) by {
                let v = spec_validate(candidate);
                assert(views(ps@)[k] == ps@[k]@);
                assert(v[k] == ps@[k]@);
                assert(v.contains(ps@[k]@));
                if crate::validation::missing_container(ps@[k]@, id) {
                    let j = choose|j: int| 0 <= j < candidate.nodes.len() && (#[trigger] candidate.nodes[j]).container == Some(id);
                    assert(candidate.nodes[j] == (if before.nodes[j].container == Some(id) {
                        NodeView { container: record.parent, ..before.nodes[j] }
                    } else {
                        before.nodes[j]
                    }));
                }
            }
        }
    }
}

/// Updating a node sets exactly the fields given and keeps the others: after
/// a committed update the node (with its id unchanged) has the given kind,
/// label and tags, the given tags replacing all of its tags, and each field
/// not given as it was; the updated node stands where the old one stood.
pub proof fn law_set_node_replaces_given_fields(
    before: DesignView,
    id: Seq<char>,
    update: NodeUpdate,
    after: DesignView,
    result: Result<Node, DesignError>,
)
    requires
        sets_node(before, id, update, after, result),
    ensures
        result matches Ok(r) ==> exists|i: int| {
            &&& 0 <= i < before.nodes.len()
            &&& #[trigger] before.nodes[i].id == id
            &&& after.nodes == before.nodes.update(i, r@)
            &&& r@.id == id
            &&& r@.tags == match update.tags {
                Some(given) => given.deep_view(),
                None => before.nodes[i].tags,
            }
            &&& r@.label == match update.label {
                Some(l) => l@,
                None => before.nodes[i].label,
            }
            &&& r@.kind == match update.kind {
                Some(k) => k,
                None => before.nodes[i].kind,
            }
            &&& r@.description == match update.description {
                OptionalUpdate::Keep => before.nodes[i].description,
                OptionalUpdate::Replace(text) => Some(text@),
                OptionalUpdate::Clear => None,
            }
            &&& r@.container == match update.container {
                OptionalUpdate::Keep => before.nodes[i].container,
                OptionalUpdate::Replace(c) => Some(c@),
                OptionalUpdate::Clear => None,
            }
        },
{
    lemma_first_position_found(node_ids(before.nodes), id);
    if let Some(i) = first_position(node_ids(before.nodes), id) {
        assert(before.nodes[i].id == id);
    }
}

/// Editing never leaves a design with problems: whatever an edit commits
/// is valid, and a refused edit leaves a valid design as it was.
pub proof fn law_edits_keep_designs_valid<T>(before: DesignView, after: DesignView, candidate: DesignView, result: Result<T, DesignError>)
    requires
        spec_is_valid(before),
        committed(before, after, candidate, result),
    ensures
        spec_is_valid(after),
{
}
} // verus!
