//! What reading a saved design gives back: the design itself, each kind of
//! element in id order, which saves to the same document again.

use vstd::prelude::*;

use crate::document::{
    assembled, format_problems, is_document_of, item_problems, item_values, key_problems, known_key, load_problems,
    layout_of, loaded, positions_values, Document, Field, Positions, Records, Sections,
};
use crate::edit::{container_ids, edge_ids, node_ids, note_ids, sorted_by_id};
use crate::error::DesignError;
use crate::id_map::{has_key, keys_increasing, lemma_lookup_entry, lemma_lookup_has_key, lookup};
use crate::model::{Container, ContainerView, Design, DesignView, Edge, EdgeView, LayoutEntry, Node, NodeView, Note, NoteView};
use crate::reorder::{lemma_sorted_listing, lemma_sorted_reordered, lemma_valid_ids_distinct, lemma_valid_rearranged, unique_keys};
use crate::text::lex_lt;
use crate::validation::{keys_of, spec_is_valid, strictly_increasing};

verus! {

/// The records of an array section, each read back as it was written.
pub open spec fn read_as_written<T: View>(records: Records<T>, written: Seq<T::V>) -> bool {
    match records {
        Records::Items(items) => {
            &&& items@.len() == written.len()
            &&& forall|i: int| 0 <= i < written.len() ==> (#[trigger] items@[i] matches Ok(r) && r@ == written[i])
        },
        Records::NotArray => false,
    }
}

/// The layout section, each position read back as it was written, in order.
pub open spec fn positions_as_written(layout: Positions, written: Seq<(Seq<char>, LayoutEntry)>) -> bool {
    match layout {
        Positions::Entries(entries) => {
            &&& entries@.len() == written.len()
            &&& forall|i: int| 0 <= i < written.len() ==> (#[trigger] entries@[i]).0@ == written[i].0
                && (entries@[i].1 matches Ok(e) && e == written[i].1)
        },
        _ => false,
    }
}

/// The sections a reader finds in the file written for `doc`: only the
/// format's keys, a version, the title and description, and every record
/// and position read back as written, in the written order.
pub open spec fn sections_of(sections: Sections, doc: Document) -> bool {
    &&& forall|i: int| 0 <= i < sections.keys.deep_view().len() ==> known_key(#[trigger] sections.keys.deep_view()[i])
    &&& sections.version matches Some(v) && v.number == Some(doc.version)
    &&& sections.design matches Field::Valid(m) && m.title@ == doc.design.title@
        && m.description.deep_view() == doc.design.description.deep_view()
    &&& read_as_written(sections.containers, doc.containers@.map_values(|r: &Container| r@))
    &&& read_as_written(sections.nodes, doc.nodes@.map_values(|r: &Node| r@))
    &&& read_as_written(sections.edges, doc.edges@.map_values(|r: &Edge| r@))
    &&& read_as_written(sections.notes, doc.notes@.map_values(|r: &Note| r@))
    &&& positions_as_written(sections.layout, doc.layout@)
}

/// The design with each kind of element listed in id order.
pub open spec fn in_id_order(d: DesignView) -> DesignView {
    DesignView {
        containers: sorted_by_id(d.containers, container_ids(d.containers)),
        nodes: sorted_by_id(d.nodes, node_ids(d.nodes)),
        edges: sorted_by_id(d.edges, edge_ids(d.edges)),
        notes: sorted_by_id(d.notes, note_ids(d.notes)),
        ..d
    }
}

/// Records read back as written are the written records, with no problem.
proof fn lemma_items_as_written<T: View>(name: Seq<char>, items: Seq<Result<T, String>>, written: Seq<T::V>)
    requires
        items.len() == written.len(),
        forall|i: int| 0 <= i < written.len() ==> (#[trigger] items[i] matches Ok(r) && r@ == written[i]),
    ensures
        item_values(items) == written,
        item_problems(name, items).len() == 0,
    decreases items.len(),
{
    if items.len() > 0 {
        let n = items.len() - 1;
        let before = items.drop_last();
        let earlier = written.drop_last();
        assert forall|i: int| 0 <= i < earlier.len() implies (#[trigger] before[i] matches Ok(r) && r@ == earlier[i]) by {
            assert(before[i] == items[i]);
            assert(items[i] matches Ok(r) && r@ == written[i]);
        }
        lemma_items_as_written(name, before, earlier);
        assert(items[n] matches Ok(r) && r@ == written[n]);
        assert(written =~= earlier.push(written[n]));
    }
}

/// Positions read back as written are the written positions, with no problem.
proof fn lemma_entries_as_written(entries: Seq<(String, Result<LayoutEntry, String>)>, written: Seq<(Seq<char>, LayoutEntry)>)
    requires
        entries.len() == written.len(),
        forall|i: int| 0 <= i < written.len() ==> (#[trigger] entries[i]).0@ == written[i].0
            && (entries[i].1 matches Ok(e) && e == written[i].1),
    ensures
        crate::document::entry_values(entries) == written,
        crate::document::entry_problems(entries).len() == 0,
    decreases entries.len(),
{
    if entries.len() > 0 {
        let n = entries.len() - 1;
        let before = entries.drop_last();
        let earlier = written.drop_last();
        assert forall|i: int| 0 <= i < earlier.len() implies (#[trigger] before[i]).0@ == earlier[i].0
            && (before[i].1 matches Ok(e) && e == earlier[i].1) by {
            assert(before[i] == entries[i]);
            assert(entries[i].0@ == written[i].0 && (entries[i].1 matches Ok(e) && e == written[i].1));
        }
        lemma_entries_as_written(before, earlier);
        assert(entries[n].0@ == written[n].0 && (entries[n].1 matches Ok(e) && e == written[n].1));
        assert(written =~= earlier.push(written[n]));
    }
}

/// Only the format's keys give no key problem.
proof fn lemma_known_keys(keys: Seq<Seq<char>>)
    requires
        forall|i: int| 0 <= i < keys.len() ==> known_key(#[trigger] keys[i]),
    ensures
        key_problems(keys).len() == 0,
    decreases keys.len(),
{
    if keys.len() > 0 {
        let before = keys.drop_last();
        assert forall|i: int| 0 <= i < before.len() implies known_key(#[trigger] before[i]) by {
            assert(before[i] == keys[i]);
        }
        lemma_known_keys(before);
        assert(known_key(keys[keys.len() - 1]));
    }
}

/// Two maps in id order that look every key up alike are the same.
proof fn lemma_same_lookups(a: Seq<(Seq<char>, LayoutEntry)>, b: Seq<(Seq<char>, LayoutEntry)>)
    requires
        keys_increasing(a),
        keys_increasing(b),
        forall|k: Seq<char>| #[trigger] lookup(a, k) == lookup(b, k),
    ensures
        a == b,
{
    let ka = keys_of(a);
    let kb = keys_of(b);
    assert forall|x: Seq<char>| ka.to_set().contains(x) <==> kb.to_set().contains(x) by {
        lemma_lookup_has_key(a, x);
        lemma_lookup_has_key(b, x);
        assert(lookup(a, x) == lookup(b, x));
        if ka.to_set().contains(x) {
            let i = choose|i: int| 0 <= i < ka.len() && ka[i] == x;
            assert(a[i].0 == x);
            assert(has_key(a, x));
            let j = choose|j: int| 0 <= j < b.len() && #[trigger] b[j].0 == x;
            assert(kb[j] == x);
        }
        if kb.to_set().contains(x) {
            let i = choose|i: int| 0 <= i < kb.len() && kb[i] == x;
            assert(b[i].0 == x);
            assert(has_key(b, x));
            let j = choose|j: int| 0 <= j < a.len() && #[trigger] a[j].0 == x;
            assert(ka[j] == x);
        }
    }
    assert(ka.to_set() =~= kb.to_set());
    assert(strictly_increasing(ka)) by {
        assert forall|i: int, j: int| 0 <= i < j < ka.len() implies lex_lt(#[trigger] ka[i], #[trigger] ka[j]) by {
            assert(ka[i] == a[i].0 && ka[j] == a[j].0);
        }
    }
    assert(strictly_increasing(kb)) by {
        assert forall|i: int, j: int| 0 <= i < j < kb.len() implies lex_lt(#[trigger] kb[i], #[trigger] kb[j]) by {
            assert(kb[i] == b[i].0 && kb[j] == b[j].0);
        }
    }
    crate::validation::lemma_increasing_unique(ka, kb);
    assert forall|i: int| 0 <= i < a.len() implies a[i] == b[i] by {
        assert(ka[i] == kb[i]);
        lemma_lookup_entry(a, i);
        lemma_lookup_entry(b, i);
        assert(lookup(a, a[i].0) == lookup(b, a[i].0));
    }
    assert(a =~= b);
}

/// Sorting records with unique keys gives records with unique keys.
proof fn lemma_sorted_unique<V>(a: Seq<V>, key: spec_fn(V) -> Seq<char>)
    requires
        a.len() <= usize::MAX,
        unique_keys(a, key),
    ensures
        unique_keys(sorted_by_id(a, a.map_values(key)), key),
        forall|x: V| a.contains(x) <==> #[trigger] sorted_by_id(a, a.map_values(key)).contains(x),
        sorted_by_id(a, a.map_values(key)).len() == a.len(),
{
    lemma_sorted_listing(a, key);
    let r = sorted_by_id(a, a.map_values(key));
    assert forall|i: int, j: int| 0 <= i < r.len() && 0 <= j < r.len() && i != j implies key(#[trigger] r[i]) != key(#[trigger] r[j]) by {
        if i < j {
            assert(lex_lt(r.map_values(key)[i], r.map_values(key)[j]));
            crate::text::lemma_lex_asymmetric(key(r[i]), key(r[j]));
        } else {
            assert(lex_lt(r.map_values(key)[j], r.map_values(key)[i]));
            crate::text::lemma_lex_asymmetric(key(r[j]), key(r[i]));
        }
    }
}

/// A design's lists fit in memory.
proof fn lemma_design_lengths(design: Design)
    ensures
        design@.containers.len() <= usize::MAX,
        design@.nodes.len() <= usize::MAX,
        design@.edges.len() <= usize::MAX,
        design@.notes.len() <= usize::MAX,
{
    broadcast use vstd::std_specs::vec::axiom_spec_len;
    assert(design.containers.len() == design@.containers.len());
    assert(design.nodes.len() == design@.nodes.len());
    assert(design.edges.len() == design@.edges.len());
    assert(design.notes.len() == design@.notes.len());
}

/// Listing records with unique keys in id order keeps them, keys unique,
/// and sorting again changes nothing.
proof fn lemma_resorted<V>(a: Seq<V>, key: spec_fn(V) -> Seq<char>)
    requires
        a.len() <= usize::MAX,
        unique_keys(a, key),
    ensures
        unique_keys(sorted_by_id(a, a.map_values(key)), key),
        forall|x: V| a.contains(x) <==> #[trigger] sorted_by_id(a, a.map_values(key)).contains(x),
        sorted_by_id(a, a.map_values(key)).len() == a.len(),
        sorted_by_id(sorted_by_id(a, a.map_values(key)), sorted_by_id(a, a.map_values(key)).map_values(key))
            == sorted_by_id(a, a.map_values(key)),
{
    lemma_sorted_unique(a, key);
    let r = sorted_by_id(a, a.map_values(key));
    lemma_sorted_reordered(r, a, key);
}

/// A valid design listed in id order is valid.
proof fn lemma_id_order_valid(d: DesignView)
    requires
        spec_is_valid(d),
        d.containers.len() <= usize::MAX,
        d.nodes.len() <= usize::MAX,
        d.edges.len() <= usize::MAX,
        d.notes.len() <= usize::MAX,
    ensures
        spec_is_valid(in_id_order(d)),
        in_id_order(d).containers == sorted_by_id(d.containers, d.containers.map_values(|x: ContainerView| x.id)),
        in_id_order(d).nodes == sorted_by_id(d.nodes, d.nodes.map_values(|x: NodeView| x.id)),
        in_id_order(d).edges == sorted_by_id(d.edges, d.edges.map_values(|x: EdgeView| x.id)),
        in_id_order(d).notes == sorted_by_id(d.notes, d.notes.map_values(|x: NoteView| x.id)),
        unique_keys(d.containers, |x: ContainerView| x.id),
        unique_keys(d.nodes, |x: NodeView| x.id),
        unique_keys(d.edges, |x: EdgeView| x.id),
        unique_keys(d.notes, |x: NoteView| x.id),
{
    let c = in_id_order(d);
    lemma_valid_ids_distinct(d);
    assert(container_ids(d.containers) =~= d.containers.map_values(|x: ContainerView| x.id));
    assert(node_ids(d.nodes) =~= d.nodes.map_values(|x: NodeView| x.id));
    assert(edge_ids(d.edges) =~= d.edges.map_values(|x: EdgeView| x.id));
    assert(note_ids(d.notes) =~= d.notes.map_values(|x: NoteView| x.id));
    lemma_sorted_unique(d.containers, |x: ContainerView| x.id);
    lemma_sorted_unique(d.nodes, |x: NodeView| x.id);
    lemma_sorted_unique(d.edges, |x: EdgeView| x.id);
    lemma_sorted_unique(d.notes, |x: NoteView| x.id);
    lemma_valid_rearranged(d, c);
}

/// The sections read from the file written for a design describe the
/// design listed in id order, with no format problem.
proof fn lemma_read_sections(sections: Sections, doc: Document, d: DesignView)
    requires
        is_document_of(doc, d),
        sections_of(sections, doc),
        keys_increasing(d.layout),
    ensures
        format_problems(sections).len() == 0,
        positions_values(sections.layout) == d.layout,
        forall|layout: Seq<(Seq<char>, LayoutEntry)>| #[trigger] layout_of(layout, positions_values(sections.layout)) ==> layout == d.layout,
        assembled(sections, d.layout) == in_id_order(d),
{
    if let Positions::Entries(entries) = sections.layout {
        lemma_entries_as_written(entries@, doc.layout@);
    }
    if let Records::Items(items) = sections.containers {
        lemma_items_as_written("containers"@, items@, doc.containers@.map_values(|r: &Container| r@));
    }
    if let Records::Items(items) = sections.nodes {
        lemma_items_as_written("nodes"@, items@, doc.nodes@.map_values(|r: &Node| r@));
    }
    if let Records::Items(items) = sections.edges {
        lemma_items_as_written("edges"@, items@, doc.edges@.map_values(|r: &Edge| r@));
    }
    if let Records::Items(items) = sections.notes {
        lemma_items_as_written("notes"@, items@, doc.notes@.map_values(|r: &Note| r@));
    }
    lemma_known_keys(sections.keys.deep_view());
    assert forall|layout: Seq<(Seq<char>, LayoutEntry)>| #[trigger] layout_of(layout, positions_values(sections.layout)) implies layout == d.layout by {
        lemma_same_lookups(layout, d.layout);
    }
    assert(assembled(sections, d.layout) =~= in_id_order(d));
}

/// Reading back the file saved for a valid design gives that design, each
/// kind of element in id order, and saving what was read writes the same
/// document again. `result` is any result that `load_sections` may return
/// for the sections read from that file (its `ensures` is `loaded`).
pub proof fn law_saved_design_reads_back(
    design: Design,
    doc: Document,
    sections: Sections,
    result: Result<Design, DesignError>,
)
    requires
        spec_is_valid(design@),
        keys_increasing(design@.layout),
        is_document_of(doc, design@),
        sections_of(sections, doc),
        loaded(sections, result),
    ensures
        result matches Ok(read) && read@ == in_id_order(design@) && is_document_of(doc, read@),
{
    let d = design@;
    let c = in_id_order(d);
    lemma_design_lengths(design);
    lemma_id_order_valid(d);
    lemma_read_sections(sections, doc, d);
    assert(load_problems(sections, d.layout).len() == 0);
    lemma_resorted(d.containers, |x: ContainerView| x.id);
    lemma_resorted(d.nodes, |x: NodeView| x.id);
    lemma_resorted(d.edges, |x: EdgeView| x.id);
    lemma_resorted(d.notes, |x: NoteView| x.id);
    assert(container_ids(d.containers) =~= d.containers.map_values(|x: ContainerView| x.id));
    assert(node_ids(d.nodes) =~= d.nodes.map_values(|x: NodeView| x.id));
    assert(edge_ids(d.edges) =~= d.edges.map_values(|x: EdgeView| x.id));
    assert(note_ids(d.notes) =~= d.notes.map_values(|x: NoteView| x.id));
    assert(container_ids(c.containers) =~= c.containers.map_values(|x: ContainerView| x.id));
    assert(node_ids(c.nodes) =~= c.nodes.map_values(|x: NodeView| x.id));
    assert(edge_ids(c.edges) =~= c.edges.map_values(|x: EdgeView| x.id));
    assert(note_ids(c.notes) =~= c.notes.map_values(|x: NoteView| x.id));
    match result {
        Ok(read) => {
            assert(layout_of(read.layout@, positions_values(sections.layout)));
        },
        Err(_) => {},
    }
}

} // verus!
