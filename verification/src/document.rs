//! The design file's document: the canonical form a design is saved in, and
//! the assembly of a design from a document's decoded sections, collecting
//! every problem rather than the first.

use vstd::prelude::*;

use crate::edit::{container_ids, edge_ids, node_ids, note_ids, sorted_by_id};
use crate::error::{reports, DesignError};
use crate::id_map::{keys_increasing, lookup, IdMap};
use crate::model::{views, Container, Design, DesignView, Edge, Layout, LayoutEntry, Node, Note};
use crate::text::{decimal, joined, spec_decimal, str_eq};
use crate::validation::{spec_is_valid, spec_validate, validate, Problem, ProblemView};

verus! {

/// The file format version this library reads and writes.
pub const VERSION: u64 = 1;

/// The design's title and description, as the file's `design` section holds them.
#[derive(Debug, PartialEq, Eq)]
pub struct Metadata {
    pub title: String,
    pub description: Option<String>,
}

/// A design in canonical form: elements sorted by id, layout in id order.
/// Its fields are in the file's key order.
#[derive(Debug)]
pub struct Document<'a> {
    pub version: u64,
    pub design: Metadata,
    pub containers: Vec<&'a Container>,
    pub nodes: Vec<&'a Node>,
    pub edges: Vec<&'a Edge>,
    pub notes: Vec<&'a Note>,
    pub layout: &'a Layout,
}

/// The document is the canonical form of the design.
pub open spec fn is_document_of(doc: Document, d: DesignView) -> bool {
    &&& doc.version == VERSION
    &&& doc.design.title@ == d.title
    &&& doc.design.description.deep_view() == d.description
    &&& doc.containers@.map_values(|r: &Container| r@) == sorted_by_id(d.containers, container_ids(d.containers))
    &&& doc.nodes@.map_values(|r: &Node| r@) == sorted_by_id(d.nodes, node_ids(d.nodes))
    &&& doc.edges@.map_values(|r: &Edge| r@) == sorted_by_id(d.edges, edge_ids(d.edges))
    &&& doc.notes@.map_values(|r: &Note| r@) == sorted_by_id(d.notes, note_ids(d.notes))
    &&& doc.layout@ == d.layout
}

/// The canonical form of a design, without changing it.
pub fn document(design: &Design) -> (doc: Document)
    ensures
        is_document_of(doc, design@),
{
    Document {
        version: VERSION,
        design: Metadata { title: design.title.clone(), description: crate::model::clone_opt(&design.description) },
        containers: design.list_containers(),
        nodes: design.list_nodes(),
        edges: design.list_edges(),
        notes: design.list_notes(),
        layout: &design.layout,
    }
}

/// What is written when a design is saved: its canonical document, but only
/// for a design without problems; otherwise every problem.
pub fn save_document(design: &Design) -> (result: Result<Document, DesignError>)
    ensures
        result is Ok <==> spec_is_valid(design@),
        result matches Ok(doc) ==> is_document_of(doc, design@),
        result matches Err(e) ==> reports(e, spec_validate(design@)),
{
    let problems = validate(design);
    if problems.len() > 0 {
        return Err(DesignError::Validation(problems));
    }
    Ok(document(design))
}


// ---------------------------------------------------------------------------
// Reading

/// An array section whose records were decoded one by one: each holds its
/// record or the reason it could not be read.
#[derive(Debug)]
pub enum Records<T> {
    NotArray,
    Items(Vec<Result<T, String>>),
}

/// The optional `layout` section, entry by entry.
#[derive(Debug)]
pub enum Positions {
    Missing,
    NotObject,
    Entries(Vec<(String, Result<LayoutEntry, String>)>),
}

/// The `design` section.
#[derive(Debug)]
pub enum Field<T> {
    Missing,
    Invalid(String),
    Valid(T),
}

/// The `version` field as read: the unsigned integer it holds, when it is
/// one, and its JSON text.
#[derive(Debug)]
pub struct Version {
    pub number: Option<u64>,
    pub text: String,
}

/// A top-level JSON object's sections, decoded independently so that one
/// malformed record cannot hide problems in the others.
#[derive(Debug)]
pub struct Sections {
    /// The top-level keys, in the object's order.
    pub keys: Vec<String>,
    pub version: Option<Version>,
    pub design: Field<Metadata>,
    pub containers: Records<Container>,
    pub nodes: Records<Node>,
    pub edges: Records<Edge>,
    pub notes: Records<Note>,
    pub layout: Positions,
}

pub open spec fn known_key(key: Seq<char>) -> bool {
    key == "version"@ || key == "design"@ || key == "containers"@ || key == "nodes"@ || key == "edges"@
        || key == "notes"@ || key == "layout"@
}

/// Keys other than the seven the format defines, in order.
pub open spec fn key_problems(keys: Seq<Seq<char>>) -> Seq<ProblemView>
    decreases keys.len(),
{
    if keys.len() == 0 {
        Seq::empty()
    } else {
        key_problems(keys.drop_last()) + if known_key(keys.last()) {
            Seq::empty()
        } else {
            seq![ProblemView::UnknownTopLevelKey { key: keys.last() }]
        }
    }
}

/// The version field: missing, the supported version, or another value,
/// reported by its JSON text.
pub open spec fn version_problems(version: Option<Version>) -> Seq<ProblemView> {
    match version {
        None => seq![ProblemView::InvalidField { field: "version"@, message: "missing field"@ }],
        Some(found) => if found.number == Some(VERSION) {
            Seq::empty()
        } else {
            seq![ProblemView::UnknownVersion { found: found.text@, supported: VERSION }]
        },
    }
}

pub open spec fn metadata_problems(design: Field<Metadata>) -> Seq<ProblemView> {
    match design {
        Field::Missing => seq![ProblemView::InvalidField { field: "design"@, message: "missing field"@ }],
        Field::Invalid(message) => seq![ProblemView::InvalidField { field: "design"@, message: message@ }],
        Field::Valid(_) => Seq::empty(),
    }
}

/// The field name of record `index` of section `name`: `name[index]`.
pub open spec fn item_field(name: Seq<char>, index: nat) -> Seq<char> {
    name + "["@ + spec_decimal(index) + "]"@
}

/// Problems with the records of one array section, in order.
pub open spec fn item_problems<T>(name: Seq<char>, items: Seq<Result<T, String>>) -> Seq<ProblemView>
    decreases items.len(),
{
    if items.len() == 0 {
        Seq::empty()
    } else {
        item_problems(name, items.drop_last()) + match items.last() {
            Ok(_) => Seq::empty(),
            Err(message) => seq![ProblemView::InvalidField {
                field: item_field(name, (items.len() - 1) as nat),
                message: message@,
            }],
        }
    }
}

pub open spec fn records_problems<T>(name: Seq<char>, records: Records<T>) -> Seq<ProblemView> {
    match records {
        Records::NotArray => seq![ProblemView::InvalidField { field: name, message: "expected an array"@ }],
        Records::Items(items) => item_problems(name, items@),
    }
}

/// The records that could be read, in order.
pub open spec fn item_values<T: View>(items: Seq<Result<T, String>>) -> Seq<T::V>
    decreases items.len(),
{
    if items.len() == 0 {
        Seq::empty()
    } else {
        item_values(items.drop_last()) + match items.last() {
            Ok(v) => seq![v@],
            Err(_) => Seq::empty(),
        }
    }
}

pub open spec fn records_values<T: View>(records: Records<T>) -> Seq<T::V> {
    match records {
        Records::NotArray => Seq::empty(),
        Records::Items(items) => item_values(items@),
    }
}

pub open spec fn entry_problems<V>(entries: Seq<(String, Result<V, String>)>) -> Seq<ProblemView>
    decreases entries.len(),
{
    if entries.len() == 0 {
        Seq::empty()
    } else {
        entry_problems(entries.drop_last()) + match entries.last().1 {
            Ok(_) => Seq::empty(),
            Err(message) => seq![ProblemView::InvalidField {
                field: "layout."@ + entries.last().0@,
                message: message@,
            }],
        }
    }
}

pub open spec fn positions_problems(layout: Positions) -> Seq<ProblemView> {
    match layout {
        Positions::Missing => Seq::empty(),
        Positions::NotObject => seq![ProblemView::InvalidField { field: "layout"@, message: "expected an object"@ }],
        Positions::Entries(entries) => entry_problems(entries@),
    }
}

/// The entries that could be read, in order.
pub open spec fn entry_values(entries: Seq<(String, Result<LayoutEntry, String>)>) -> Seq<(Seq<char>, LayoutEntry)>
    decreases entries.len(),
{
    if entries.len() == 0 {
        Seq::empty()
    } else {
        entry_values(entries.drop_last()) + match entries.last().1 {
            Ok(e) => seq![(entries.last().0@, e)],
            Err(_) => Seq::empty(),
        }
    }
}

pub open spec fn positions_values(layout: Positions) -> Seq<(Seq<char>, LayoutEntry)> {
    match layout {
        Positions::Entries(entries) => entry_values(entries@),
        _ => Seq::empty(),
    }
}

/// The design the sections describe; `layout` is the model of the layout
/// map, which holds the entries that could be read.
pub open spec fn assembled(sections: Sections, layout: Seq<(Seq<char>, LayoutEntry)>) -> DesignView {
    DesignView {
        title: match sections.design {
            Field::Valid(m) => m.title@,
            _ => Seq::empty(),
        },
        description: match sections.design {
            Field::Valid(m) => m.description.deep_view(),
            _ => None,
        },
        containers: records_values(sections.containers),
        nodes: records_values(sections.nodes),
        edges: records_values(sections.edges),
        notes: records_values(sections.notes),
        layout,
    }
}

/// File-format problems, in the order they are found: version, unknown
/// keys, then each section.
pub open spec fn format_problems(sections: Sections) -> Seq<ProblemView> {
    version_problems(sections.version) + key_problems(sections.keys.deep_view()) + metadata_problems(
        sections.design,
    ) + records_problems("containers"@, sections.containers) + records_problems("nodes"@, sections.nodes)
        + records_problems("edges"@, sections.edges) + records_problems("notes"@, sections.notes)
        + positions_problems(sections.layout)
}


/// The layout map holds, in id order, what inserting the entries in order
/// leaves: one entry per id, with the value last given for it.
pub open spec fn layout_of(layout: Seq<(Seq<char>, LayoutEntry)>, entries: Seq<(Seq<char>, LayoutEntry)>) -> bool {
    &&& keys_increasing(layout)
    &&& forall|k: Seq<char>| #[trigger] lookup(layout, k) == lookup(entries, k)
}

/// Every problem of a document: its format problems, then the model
/// problems of the design it describes.
pub open spec fn load_problems(sections: Sections, layout: Seq<(Seq<char>, LayoutEntry)>) -> Seq<ProblemView> {
    format_problems(sections) + spec_validate(assembled(sections, layout))
}

/// What reading the sections gives: the design when the document has no
/// problem at all, otherwise every problem found.
pub open spec fn loaded(sections: Sections, result: Result<Design, DesignError>) -> bool {
    match result {
        Ok(d) => {
            &&& layout_of(d.layout@, positions_values(sections.layout))
            &&& d@ == assembled(sections, d.layout@)
            &&& load_problems(sections, d.layout@).len() == 0
        },
        Err(e) => exists|layout: Seq<(Seq<char>, LayoutEntry)>| {
            &&& #[trigger] layout_of(layout, positions_values(sections.layout))
            &&& load_problems(sections, layout).len() > 0
            &&& reports(e, load_problems(sections, layout))
        },
    }
}

proof fn lemma_push_problem(before: Seq<Problem>, p: Problem)
    ensures
        views(before.push(p)) == views(before).push(p@),
{
    assert(views(before.push(p)) =~= views(before).push(p@));
}

/// Move the readable records of a section out, in order, and report the others.
fn read_records<T: View>(name: &str, records: Records<T>, problems: &mut Vec<Problem>) -> (values: Vec<T>)
    ensures
        views(values@) == records_values(records),
        views(final(problems)@) == views(old(problems)@) + records_problems(name@, records),
{
    match records {
        Records::NotArray => {
            let ghost before = problems@;
            problems.push(Problem::InvalidField { field: String::from_str(name), message: String::from_str("expected an array") });
            proof {
                reveal_strlit("expected an array");
                lemma_push_problem(before, problems@.last());
                assert(problems@ == before.push(problems@.last()));
            }
            Vec::new()
        },
        Records::Items(items) => {
            let ghost all = items@;
            let ghost start = views(problems@);
            let n = items.len();
            let mut rest = items;
            let mut values: Vec<T> = Vec::new();
            let mut i: usize = 0;
            proof {
                assert(all.take(0) =~= Seq::<Result<T, String>>::empty());
                assert(views(values@) =~= Seq::<T::V>::empty());
                assert(rest@ =~= all.subrange(0, n as int));
            }
            while i < n
                invariant
                    n == all.len(),
                    i <= n,
                    rest@ == all.subrange(i as int, n as int),
                    views(values@) == item_values(all.take(i as int)),
                    views(problems@) == start + item_problems(name@, all.take(i as int)),
                decreases n - i,
            {
                let ghost vs = values@;
                let ghost ps = problems@;
                let item = rest.remove(0);
                proof {
                    assert(item == all[i as int]);
                    assert(all.take(i + 1).drop_last() =~= all.take(i as int));
                    assert(all.take(i + 1).last() == all[i as int]);
                    assert(rest@ =~= all.subrange(i + 1, n as int));
                }
                match item {
                    Ok(v) => {
                        values.push(v);
                        proof {
                            assert(views(values@) =~= views(vs).push(v@));
                            assert(item_problems(name@, all.take(i + 1)) =~= item_problems(name@, all.take(i as int)));
                            assert(item_values(all.take(i + 1)) =~= item_values(all.take(i as int)).push(v@));
                        }
                    },
                    Err(message) => {
                        let mut field = joined(name, "[");
                        let digits = decimal(i as u64);
                        field.append(digits.as_str());
                        field.append("]");
                        let ghost m = message@;
                        problems.push(Problem::InvalidField { field, message });
                        proof {
                            reveal_strlit("[");
                            reveal_strlit("]");
                            lemma_push_problem(ps, problems@.last());
                            assert(problems@ == ps.push(problems@.last()));
                            assert(problems@.last()@ == ProblemView::InvalidField { field: item_field(name@, i as nat), message: m });
                            assert(item_values(all.take(i + 1)) =~= item_values(all.take(i as int)));
                            assert(views(problems@) =~= start + item_problems(name@, all.take(i + 1)));
                        }
                    },
                }
                i = i + 1;
            }
            proof {
                assert(all.take(n as int) =~= all);
            }
            values
        },
    }
}

/// Collect the readable layout entries into a map, and report the others.
fn read_positions(layout: Positions, problems: &mut Vec<Problem>) -> (positions: Layout)
    ensures
        layout_of(positions@, positions_values(layout)),
        views(final(problems)@) == views(old(problems)@) + positions_problems(layout),
{
    let mut positions: Layout = IdMap::new();
    proof {
        use_type_invariant(&positions);
    }
    match layout {
        Positions::Missing => {
            proof {
                assert(views(problems@) =~= views(problems@) + Seq::<ProblemView>::empty());
            }
            positions
        },
        Positions::NotObject => {
            let ghost before = problems@;
            problems.push(Problem::InvalidField { field: String::from_str("layout"), message: String::from_str("expected an object") });
            proof {
                reveal_strlit("layout");
                reveal_strlit("expected an object");
                lemma_push_problem(before, problems@.last());
                assert(problems@ == before.push(problems@.last()));
            }
            positions
        },
        Positions::Entries(entries) => {
            let ghost all = entries@;
            let ghost start = views(problems@);
            let n = entries.len();
            let mut rest = entries;
            let mut i: usize = 0;
            proof {
                assert(all.take(0) =~= Seq::<(String, Result<LayoutEntry, String>)>::empty());
                assert(rest@ =~= all.subrange(0, n as int));
            }
            while i < n
                invariant
                    n == all.len(),
                    i <= n,
                    rest@ == all.subrange(i as int, n as int),
                    layout_of(positions@, entry_values(all.take(i as int))),
                    views(problems@) == start + entry_problems(all.take(i as int)),
                decreases n - i,
            {
                proof {
                    use_type_invariant(&positions);
                }
                let ghost ps = problems@;
                let ghost before = positions@;
                let (key, entry) = rest.remove(0);
                proof {
                    assert((key, entry) == all[i as int]);
                    assert(all.take(i + 1).drop_last() =~= all.take(i as int));
                    assert(all.take(i + 1).last() == all[i as int]);
                    assert(rest@ =~= all.subrange(i + 1, n as int));
                }
                match entry {
                    Ok(e) => {
                        let ghost k = key@;
                        positions.insert(key, e);
                        proof {
                            use_type_invariant(&positions);
                            let prev = entry_values(all.take(i as int));
                            assert(entry_values(all.take(i + 1)) =~= prev.push((k, e)));
                            assert(prev.push((k, e)).drop_last() =~= prev);
                            assert forall|x: Seq<char>| #[trigger] lookup(positions@, x) == lookup(entry_values(all.take(i + 1)), x) by {
                                assert(lookup(before, x) == lookup(prev, x));
                            }
                            assert(entry_problems(all.take(i + 1)) =~= entry_problems(all.take(i as int)));
                        }
                    },
                    Err(message) => {
                        let field = joined("layout.", key.as_str());
                        let ghost m = message@;
                        problems.push(Problem::InvalidField { field, message });
                        proof {
                            reveal_strlit("layout.");
                            lemma_push_problem(ps, problems@.last());
                            assert(problems@ == ps.push(problems@.last()));
                            assert(entry_values(all.take(i + 1)) =~= entry_values(all.take(i as int)));
                            assert(views(problems@) =~= start + entry_problems(all.take(i + 1)));
                        }
                    },
                }
                i = i + 1;
            }
            proof {
                assert(all.take(n as int) =~= all);
            }
            positions
        },
    }
}

/// Build the design a document's sections describe. Only the supported
/// version is accepted; every format and model problem is reported together.
pub fn assemble(sections: Sections) -> (result: Result<Design, DesignError>)
    ensures
        loaded(sections, result),
{
    let ghost whole = sections;
    let Sections { keys, version, design, containers, nodes, edges, notes, layout } = sections;
    let mut problems: Vec<Problem> = Vec::new();
    match version {
        None => {
            problems.push(Problem::InvalidField { field: String::from_str("version"), message: String::from_str("missing field") });
        },
        Some(found) => {
            if !(found.number == Some(VERSION)) {
                problems.push(Problem::UnknownVersion { found: found.text, supported: VERSION });
            }
        },
    }
    proof {
        reveal_strlit("version");
        reveal_strlit("missing field");
        assert(views(problems@) =~= version_problems(whole.version));
    }
    let mut k: usize = 0;
    while k < keys.len()
        invariant
            keys@ == whole.keys@,
            k <= keys.len(),
            views(problems@) == version_problems(whole.version) + key_problems(keys.deep_view().take(k as int)),
        decreases keys.len() - k,
    {
        let key = keys[k].as_str();
        let ghost ps = problems@;
        proof {
            assert(keys.deep_view().take(k + 1).drop_last() =~= keys.deep_view().take(k as int));
            assert(keys.deep_view().take(k + 1).last() == key@);
        }
        let known = str_eq(key, "version") || str_eq(key, "design") || str_eq(key, "containers")
            || str_eq(key, "nodes") || str_eq(key, "edges") || str_eq(key, "notes") || str_eq(key, "layout");
        if !known {
            problems.push(Problem::UnknownTopLevelKey { key: String::from_str(key) });
            proof {
                lemma_push_problem(ps, problems@.last());
                assert(problems@ == ps.push(problems@.last()));
            }
        }
        proof {
            assert(views(problems@) =~= version_problems(whole.version) + key_problems(keys.deep_view().take(k + 1)));
        }
        k = k + 1;
    }
    proof {
        assert(keys.deep_view().take(keys.len() as int) =~= keys.deep_view());
    }
    let ghost ps = problems@;
    let (title, description) = match design {
        Field::Missing => {
            problems.push(Problem::InvalidField { field: String::from_str("design"), message: String::from_str("missing field") });
            proof {
                reveal_strlit("design");
                lemma_push_problem(ps, problems@.last());
                assert(problems@ == ps.push(problems@.last()));
            }
            (String::new(), None)
        },
        Field::Invalid(message) => {
            problems.push(Problem::InvalidField { field: String::from_str("design"), message });
            proof {
                reveal_strlit("design");
                lemma_push_problem(ps, problems@.last());
                assert(problems@ == ps.push(problems@.last()));
            }
            (String::new(), None)
        },
        Field::Valid(metadata) => (metadata.title, metadata.description),
    };
    let containers = read_records("containers", containers, &mut problems);
    let nodes = read_records("nodes", nodes, &mut problems);
    let edges = read_records("edges", edges, &mut problems);
    let notes = read_records("notes", notes, &mut problems);
    let layout = read_positions(layout, &mut problems);
    let design = Design { title, description, containers, nodes, edges, notes, layout };
    proof {
        reveal_strlit("containers");
        reveal_strlit("nodes");
        reveal_strlit("edges");
        reveal_strlit("notes");
        assert(design@.title == assembled(whole, design.layout@).title);
        assert(design@ =~= assembled(whole, design.layout@));
        assert(views(problems@) =~= format_problems(whole));
    }
    let mut model = validate(&design);
    let ghost format = problems@;
    let ghost found = model@;
    problems.append(&mut model);
    proof {
        assert(views(problems@) =~= views(format) + views(found));
        assert(views(problems@) =~= load_problems(whole, design.layout@));
    }
    if problems.len() == 0 {
        Ok(design)
    } else {
        Err(DesignError::Validation(problems))
    }
}

/// The one problem of a file whose top level is not a JSON object.
pub open spec fn not_an_object() -> Seq<ProblemView> {
    seq![ProblemView::InvalidField { field: "document"@, message: "expected an object"@ }]
}

/// Read a parsed design file, given its top-level object's sections, or
/// `None` when the top level is not an object. The design is returned only
/// when the file has no problem; otherwise every problem is.
pub fn load_sections(sections: Option<Sections>) -> (result: Result<Design, DesignError>)
    ensures
        sections is None ==> (result matches Err(e) && reports(e, not_an_object())),
        sections matches Some(s) ==> loaded(s, result),
{
    match sections {
        None => {
            let mut problems: Vec<Problem> = Vec::new();
            problems.push(Problem::InvalidField { field: String::from_str("document"), message: String::from_str("expected an object") });
            proof {
                reveal_strlit("document");
                reveal_strlit("expected an object");
                assert(views(problems@) =~= not_an_object());
            }
            Err(DesignError::Validation(problems))
        },
        Some(sections) => {
            assemble(sections)
        },
    }
}

/// Only the supported version loads: a design is read only from a document
/// whose version is the supported integer, and a document with no version or
/// another one is refused, its version problem reported first.
pub proof fn law_only_the_supported_version_loads(sections: Sections, result: Result<Design, DesignError>)
    requires
        loaded(sections, result),
    ensures
        result is Ok ==> (sections.version matches Some(v) && v.number == Some(VERSION)),
        !(sections.version matches Some(v) && v.number == Some(VERSION)) ==> (result matches Err(
            DesignError::Validation(ps),
        ) && ps@.len() > 0 && ps@[0]@ == version_problems(sections.version)[0]),
{
    let v = version_problems(sections.version);
    let rest = key_problems(sections.keys.deep_view()) + metadata_problems(sections.design) + records_problems(
        "containers"@,
        sections.containers,
    ) + records_problems("nodes"@, sections.nodes) + records_problems("edges"@, sections.edges)
        + records_problems("notes"@, sections.notes) + positions_problems(sections.layout);
    assert(format_problems(sections) =~= v + rest);
    match result {
        Ok(d) => {
            assert(load_problems(sections, d.layout@) =~= v + rest + spec_validate(assembled(sections, d.layout@)));
        },
        Err(e) => {
            let layout = choose|layout: Seq<(Seq<char>, LayoutEntry)>| {
                &&& #[trigger] layout_of(layout, positions_values(sections.layout))
                &&& load_problems(sections, layout).len() > 0
                &&& reports(e, load_problems(sections, layout))
            };
            let all = load_problems(sections, layout);
            assert(all =~= v + (rest + spec_validate(assembled(sections, layout))));
            if !(sections.version matches Some(x) && x.number == Some(VERSION)) {
                assert(v.len() == 1);
                assert(all[0] == v[0]);
                if let DesignError::Validation(ps) = e {
                    assert(views(ps@)[0] == ps@[0]@);
                }
            }
        },
    }
}
} // verus!
