//! The design model: elements, their kinds, and saved layout positions.

use vstd::prelude::*;

use crate::id_map::IdMap;

verus! {

/// Pinned positions keyed by element id, in id order.
pub type Layout = IdMap<LayoutEntry>;

/// A component's visual kind; it does not add behavior.
#[derive(Clone, Copy, Debug, PartialEq, Eq, Structural)]
pub enum NodeKind {
    Service,
    Database,
    Queue,
    Cache,
    Storage,
    Client,
    External,
    Function,
    Generic,
}

/// An edge's line style.
#[derive(Clone, Copy, Debug, PartialEq, Eq, Structural)]
pub enum EdgeKind {
    Sync,
    Async,
    Data,
    Dependency,
}

/// A component.
#[derive(Debug, PartialEq, Eq)]
pub struct Node {
    pub id: String,
    pub kind: NodeKind,
    pub label: String,
    pub description: Option<String>,
    pub tags: Vec<String>,
    pub container: Option<String>,
}

/// A boundary drawn as a frame around the elements inside it.
#[derive(Debug, PartialEq, Eq)]
pub struct Container {
    pub id: String,
    pub label: String,
    pub description: Option<String>,
    pub parent: Option<String>,
}

/// A directed connection between two nodes, or a node and a container.
#[derive(Debug, PartialEq, Eq)]
pub struct Edge {
    pub id: String,
    pub from: String,
    pub to: String,
    pub kind: EdgeKind,
    pub label: Option<String>,
    pub bidirectional: bool,
}

/// A short text, attached to a node, a container, an edge, or nothing.
#[derive(Debug, PartialEq, Eq)]
pub struct Note {
    pub id: String,
    pub text: String,
    pub on: Option<String>,
}

/// A saved size. Only containers may have one. Each coordinate is held as
/// the bit pattern of an IEEE 754 binary64 number.
#[derive(Clone, Copy, Debug, PartialEq, Eq, Structural)]
pub struct Size {
    pub width: u64,
    pub height: u64,
}

/// A pinned position, with an optional size for containers. Coordinates are
/// the bit patterns of IEEE 754 binary64 numbers.
#[derive(Clone, Copy, Debug, PartialEq, Eq, Structural)]
pub struct LayoutEntry {
    pub x: u64,
    pub y: u64,
    pub size: Option<Size>,
}

/// A binary64 number is finite unless all of its exponent bits are set.
pub open spec fn spec_is_finite(bits: u64) -> bool {
    (bits >> 52u64) & 0x7ffu64 != 0x7ffu64
}

/// Whether the binary64 number with these bits is finite.
pub fn is_finite(bits: u64) -> (finite: bool)
    ensures
        finite == spec_is_finite(bits),
{
    (bits >> 52u64) & 0x7ffu64 != 0x7ffu64
}

/// A design and its independently editable layout state.
#[derive(Debug, PartialEq)]
pub struct Design {
    pub title: String,
    pub description: Option<String>,
    pub containers: Vec<Container>,
    pub nodes: Vec<Node>,
    pub edges: Vec<Edge>,
    pub notes: Vec<Note>,
    pub layout: Layout,
}

/// The mathematical model of a node: its strings as character sequences.
#[verifier::ext_equal]
pub struct NodeView {
    pub id: Seq<char>,
    pub kind: NodeKind,
    pub label: Seq<char>,
    pub description: Option<Seq<char>>,
    pub tags: Seq<Seq<char>>,
    pub container: Option<Seq<char>>,
}

#[verifier::ext_equal]
pub struct ContainerView {
    pub id: Seq<char>,
    pub label: Seq<char>,
    pub description: Option<Seq<char>>,
    pub parent: Option<Seq<char>>,
}

#[verifier::ext_equal]
pub struct EdgeView {
    pub id: Seq<char>,
    pub from: Seq<char>,
    pub to: Seq<char>,
    pub kind: EdgeKind,
    pub label: Option<Seq<char>>,
    pub bidirectional: bool,
}

#[verifier::ext_equal]
pub struct NoteView {
    pub id: Seq<char>,
    pub text: Seq<char>,
    pub on: Option<Seq<char>>,
}

#[verifier::ext_equal]
pub struct DesignView {
    pub title: Seq<char>,
    pub description: Option<Seq<char>>,
    pub containers: Seq<ContainerView>,
    pub nodes: Seq<NodeView>,
    pub edges: Seq<EdgeView>,
    pub notes: Seq<NoteView>,
    pub layout: Seq<(Seq<char>, LayoutEntry)>,
}

impl View for Node {
    type V = NodeView;

    open spec fn view(&self) -> NodeView {
        NodeView {
            id: self.id@,
            kind: self.kind,
            label: self.label@,
            description: self.description.deep_view(),
            tags: self.tags.deep_view(),
            container: self.container.deep_view(),
        }
    }
}

impl View for Container {
    type V = ContainerView;

    open spec fn view(&self) -> ContainerView {
        ContainerView {
            id: self.id@,
            label: self.label@,
            description: self.description.deep_view(),
            parent: self.parent.deep_view(),
        }
    }
}

impl View for Edge {
    type V = EdgeView;

    open spec fn view(&self) -> EdgeView {
        EdgeView {
            id: self.id@,
            from: self.from@,
            to: self.to@,
            kind: self.kind,
            label: self.label.deep_view(),
            bidirectional: self.bidirectional,
        }
    }
}

impl View for Note {
    type V = NoteView;

    open spec fn view(&self) -> NoteView {
        NoteView { id: self.id@, text: self.text@, on: self.on.deep_view() }
    }
}

/// The views of a sequence's elements.
pub open spec fn views<T: View>(s: Seq<T>) -> Seq<T::V> {
    s.map_values(|x: T| x@)
}

impl View for Design {
    type V = DesignView;

    open spec fn view(&self) -> DesignView {
        DesignView {
            title: self.title@,
            description: self.description.deep_view(),
            containers: views(self.containers@),
            nodes: views(self.nodes@),
            edges: views(self.edges@),
            notes: views(self.notes@),
            layout: self.layout@,
        }
    }
}

pub fn clone_opt(s: &Option<String>) -> (out: Option<String>)
    ensures
        out.deep_view() == s.deep_view(),
{
    match s {
        Some(v) => Some(v.clone()),
        None => None,
    }
}

pub fn clone_strings(v: &Vec<String>) -> (out: Vec<String>)
    ensures
        out.deep_view() == v.deep_view(),
{
    let out = v.clone();
    proof {
        assert(out.deep_view() =~= v.deep_view());
    }
    out
}

impl Clone for Node {
    fn clone(&self) -> (out: Self)
        ensures
            out@ == self@,
    {
        Node {
            id: self.id.clone(),
            kind: self.kind,
            label: self.label.clone(),
            description: clone_opt(&self.description),
            tags: clone_strings(&self.tags),
            container: clone_opt(&self.container),
        }
    }
}

impl Clone for Container {
    fn clone(&self) -> (out: Self)
        ensures
            out@ == self@,
    {
        Container {
            id: self.id.clone(),
            label: self.label.clone(),
            description: clone_opt(&self.description),
            parent: clone_opt(&self.parent),
        }
    }
}

impl Clone for Edge {
    fn clone(&self) -> (out: Self)
        ensures
            out@ == self@,
    {
        Edge {
            id: self.id.clone(),
            from: self.from.clone(),
            to: self.to.clone(),
            kind: self.kind,
            label: clone_opt(&self.label),
            bidirectional: self.bidirectional,
        }
    }
}

impl Clone for Note {
    fn clone(&self) -> (out: Self)
        ensures
            out@ == self@,
    {
        Note { id: self.id.clone(), text: self.text.clone(), on: clone_opt(&self.on) }
    }
}

/// A copy of a vector of records, element by element.
pub fn clone_vec<T: Clone + View>(v: &Vec<T>) -> (out: Vec<T>)
    requires
        forall|a: T, b: T| #[trigger] cloned(a, b) ==> a@ == b@,
    ensures
        views(out@) == views(v@),
{
    let out = v.clone();
    proof {
        assert(views(out@) =~= views(v@));
    }
    out
}

impl Clone for Design {
    fn clone(&self) -> (out: Self)
        ensures
            out@ == self@,
    {
        Design {
            title: self.title.clone(),
            description: clone_opt(&self.description),
            containers: clone_vec(&self.containers),
            nodes: clone_vec(&self.nodes),
            edges: clone_vec(&self.edges),
            notes: clone_vec(&self.notes),
            layout: self.layout.clone(),
        }
    }
}


/// A design with an empty title and nothing in it.
pub open spec fn empty_design() -> DesignView {
    DesignView {
        title: Seq::empty(),
        description: None,
        containers: Seq::empty(),
        nodes: Seq::empty(),
        edges: Seq::empty(),
        notes: Seq::empty(),
        layout: Seq::empty(),
    }
}

impl Default for Design {
    fn default() -> (d: Self)
        ensures
            d@ == empty_design(),
    {
        let d = Design {
            title: String::new(),
            description: None,
            containers: Vec::new(),
            nodes: Vec::new(),
            edges: Vec::new(),
            notes: Vec::new(),
            layout: crate::id_map::IdMap::new(),
        };
        proof {
            assert(d@.containers =~= Seq::<ContainerView>::empty());
            assert(d@.nodes =~= Seq::<NodeView>::empty());
            assert(d@.edges =~= Seq::<EdgeView>::empty());
            assert(d@.notes =~= Seq::<NoteView>::empty());
            assert(d@.layout =~= Seq::<(Seq<char>, LayoutEntry)>::empty());
        }
        d
    }
}

} // verus!
