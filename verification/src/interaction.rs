//! The viewer's rules that need no window: which positions a drag moves,
//! how dragged positions merge into a freshly loaded design, and when a
//! burst of file events has settled.

use vstd::prelude::*;

use crate::id_map::{has_key, key_set, lemma_has_key_at, lemma_lookup_has_key, lookup, IdMap};
use crate::model::{ContainerView, Design, DesignView, Layout, LayoutEntry, NodeView};
use crate::text::str_eq;

verus! {

/// How long file events must settle before a reload, in nanoseconds.
pub const DEBOUNCE: u64 = 150_000_000;

/// Collapses a burst of file events into one reload. Times are nanoseconds
/// since an arbitrary, fixed origin.
#[derive(Debug)]
pub struct Debounce {
    pub last_event: Option<u64>,
}

impl Default for Debounce {
    fn default() -> (d: Self)
        ensures
            d.last_event is None,
    {
        Debounce { last_event: None }
    }
}

impl Debounce {
    /// Note an event at `now`; the latest event time is kept.
    pub fn record(&mut self, now: u64)
        ensures
            final(self).last_event == Some(match old(self).last_event {
                Some(last) => if last >= now { last } else { now },
                None => now,
            }),
    {
        self.last_event = Some(match self.last_event {
            Some(last) => if last >= now { last } else { now },
            None => now,
        });
    }

    /// Whether the events have settled by `now`: the last one was at least
    /// `DEBOUNCE` earlier. A settled burst is consumed.
    pub fn take_ready(&mut self, now: u64) -> (ready: bool)
        ensures
            ready == (old(self).last_event matches Some(last) && now >= last && now - last >= DEBOUNCE),
            final(self).last_event == if ready { None } else { old(self).last_event },
    {
        let ready = match self.last_event {
            Some(last) => now >= last && now - last >= DEBOUNCE,
            None => false,
        };
        if ready {
            self.last_event = None;
        }
        ready
    }
}

/// What the file watch reported, as the viewer sees it.
#[derive(Debug)]
pub enum WatchEvent {
    /// The design file changed, or the watch asks for a rescan, at this time.
    Changed(u64),
    /// The watch failed; the text says why.
    Failed(String),
    /// A read, or a change to another file.
    Ignored,
}

/// What a poll of the file watch decided.
#[derive(Debug)]
pub struct PollOutcome {
    /// The events have settled: reload the design now.
    pub reload: bool,
    /// The status text of the last watch failure among the events.
    pub failure: Option<String>,
    /// Events left for a later poll, in order: all of them while a drag is
    /// in progress, none otherwise.
    pub held: Vec<WatchEvent>,
}

/// Two byte strings are equal, byte by byte.
pub fn same_bytes(a: &Vec<u8>, b: &Vec<u8>) -> (same: bool)
    ensures
        same == (a@ == b@),
{
    if a.len() != b.len() {
        return false;
    }
    let mut i: usize = 0;
    while i < a.len()
        invariant
            a.len() == b.len(),
            i <= a.len(),
            a@.take(i as int) == b@.take(i as int),
        decreases a.len() - i,
    {
        if a[i] != b[i] {
            return false;
        }
        proof {
            assert(a@.take(i as int + 1) =~= a@.take(i as int).push(a@[i as int]));
            assert(b@.take(i as int + 1) =~= b@.take(i as int).push(b@[i as int]));
        }
        i = i + 1;
    }
    proof {
        assert(a@ =~= a@.take(a.len() as int));
        assert(b@ =~= b@.take(b.len() as int));
    }
    true
}

/// A watch event concerns the design file when the watch asks for a rescan,
/// or when it is not a read and one of its paths has the design file's name.
pub open spec fn concerns(rescan: bool, access: bool, target: Option<Seq<u8>>, changed: Seq<Option<Seq<u8>>>) -> bool {
    rescan || (!access && target is Some && exists|i: int| 0 <= i < changed.len() && #[trigger] changed[i] == target)
}

/// Whether a watch event concerns the design file. The watch covers the
/// file's directory, so every path of the event (a rename has two) is
/// compared, by file name; `target` is the design file's name, `changed` the
/// names of the event's paths, `access` whether the event is a read.
pub fn concerns_design(rescan: bool, access: bool, target: &Option<Vec<u8>>, changed: &Vec<Option<Vec<u8>>>) -> (yes: bool)
    ensures
        yes == concerns(rescan, access, target.deep_view(), changed.deep_view()),
{
    if rescan {
        return true;
    }
    if access {
        return false;
    }
    let name = match target {
        Some(name) => name,
        None => return false,
    };
    let mut i: usize = 0;
    while i < changed.len()
        invariant
            !rescan && !access,
            i <= changed.len(),
            target.deep_view() == Some(name@),
            forall|j: int| 0 <= j < i ==> changed.deep_view()[j] != target.deep_view(),
        decreases changed.len() - i,
    {
        proof {
            assert(changed.deep_view()[i as int] == changed@[i as int].deep_view());
            assert(name.deep_view() =~= name@);
        }
        if let Some(other) = &changed[i] {
            proof {
                assert(other.deep_view() =~= other@);
            }
            if same_bytes(other, name) {
                proof {
                    assert(changed.deep_view()[i as int] == target.deep_view());
                }
                return true;
            }
        }
        i = i + 1;
    }
    false
}

/// The latest change time, starting from `last` and taking in the changes
/// among `events` in order.
pub open spec fn latest_change(last: Option<u64>, events: Seq<WatchEvent>) -> Option<u64>
    decreases events.len(),
{
    if events.len() == 0 {
        last
    } else {
        let before = latest_change(last, events.drop_last());
        match events.last() {
            WatchEvent::Changed(t) => Some(match before {
                Some(l) => if l >= t { l } else { t },
                None => t,
            }),
            _ => before,
        }
    }
}

/// The text of the last failure among `events`.
pub open spec fn last_failure(events: Seq<WatchEvent>) -> Option<Seq<char>>
    decreases events.len(),
{
    if events.len() == 0 {
        None
    } else {
        match events.last() {
            WatchEvent::Failed(text) => Some(text@),
            _ => last_failure(events.drop_last()),
        }
    }
}

impl Debounce {
    /// Take in a poll's watch events. While a drag is in progress nothing
    /// is taken in: the events are held for a later poll, so that a reload
    /// cannot replace the geometry under the cursor. Otherwise every change
    /// is recorded, the last failure is reported as the status text, and the
    /// design is reloaded once the changes have settled by `now`.
    pub fn poll(&mut self, dragging: bool, events: Vec<WatchEvent>, now: u64) -> (outcome: PollOutcome)
        ensures
            dragging ==> {
                &&& !outcome.reload
                &&& outcome.failure is None
                &&& outcome.held@ == events@
                &&& final(self).last_event == old(self).last_event
            },
            !dragging ==> {
                &&& outcome.reload == (latest_change(old(self).last_event, events@) matches Some(last)
                    && now >= last && now - last >= DEBOUNCE)
                &&& final(self).last_event == if outcome.reload { None } else { latest_change(old(self).last_event, events@) }
                &&& outcome.failure.deep_view() == match last_failure(events@) {
                    Some(text) => Some("File watch failed: "@ + text),
                    None => None::<Seq<char>>,
                }
                &&& outcome.held@.len() == 0
            },
    {
        if dragging {
            return PollOutcome { reload: false, failure: None, held: events };
        }
        let ghost all = events@;
        let ghost start = self.last_event;
        let n = events.len();
        let mut rest = events;
        let mut failure: Option<String> = None;
        let mut i: usize = 0;
        proof {
            assert(all.take(0) =~= Seq::<WatchEvent>::empty());
            assert(rest@ =~= all.subrange(0, n as int));
        }
        while i < n
            invariant
                n == all.len(),
                i <= n,
                rest@ == all.subrange(i as int, n as int),
                self.last_event == latest_change(start, all.take(i as int)),
                failure.deep_view() == match last_failure(all.take(i as int)) {
                    Some(text) => Some("File watch failed: "@ + text),
                    None => None::<Seq<char>>,
                },
            decreases n - i,
        {
            let event = rest.remove(0);
            proof {
                assert(event == all[i as int]);
                assert(all.take(i + 1).drop_last() =~= all.take(i as int));
                assert(all.take(i + 1).last() == all[i as int]);
                assert(rest@ =~= all.subrange(i + 1, n as int));
            }
            match event {
                WatchEvent::Changed(time) => {
                    self.record(time);
                },
                WatchEvent::Failed(text) => {
                    let mut status = String::from_str("File watch failed: ");
                    status.append(text.as_str());
                    proof {
                        reveal_strlit("File watch failed: ");
                    }
                    failure = Some(status);
                },
                WatchEvent::Ignored => {},
            }
            i = i + 1;
        }
        proof {
            assert(all.take(n as int) =~= all);
        }
        let reload = self.take_ready(now);
        PollOutcome { reload, failure, held: Vec::new() }
    }
}

/// Ids that carry positions: nodes, containers, and notes.
pub open spec fn has_position(d: DesignView, id: Seq<char>) -> bool {
    (exists|i: int| 0 <= i < d.nodes.len() && #[trigger] d.nodes[i].id == id)
        || (exists|i: int| 0 <= i < d.containers.len() && #[trigger] d.containers[i].id == id)
        || (exists|i: int| 0 <= i < d.notes.len() && #[trigger] d.notes[i].id == id)
}

pub open spec fn is_container(d: DesignView, id: Seq<char>) -> bool {
    exists|i: int| 0 <= i < d.containers.len() && #[trigger] d.containers[i].id == id
}

/// A dragged entry as saved: only containers keep a size.
pub open spec fn saved_entry(d: DesignView, id: Seq<char>, entry: LayoutEntry) -> LayoutEntry {
    if is_container(d, id) {
        entry
    } else {
        LayoutEntry { size: None, ..entry }
    }
}

fn container_exists(design: &Design, id: &str) -> (found: bool)
    ensures
        found == is_container(design@, id@),
{
    let mut i: usize = 0;
    while i < design.containers.len()
        invariant
            i <= design.containers.len(),
            forall|j: int| 0 <= j < i ==> design@.containers[j].id != id@,
        decreases design.containers.len() - i,
    {
        if str_eq(design.containers[i].id.as_str(), id) {
            proof {
                assert(design@.containers[i as int].id == id@);
            }
            return true;
        }
        i = i + 1;
    }
    false
}

fn node_exists(design: &Design, id: &str) -> (found: bool)
    ensures
        found == (exists|i: int| 0 <= i < design@.nodes.len() && #[trigger] design@.nodes[i].id == id@),
{
    let mut i: usize = 0;
    while i < design.nodes.len()
        invariant
            i <= design.nodes.len(),
            forall|j: int| 0 <= j < i ==> design@.nodes[j].id != id@,
        decreases design.nodes.len() - i,
    {
        if str_eq(design.nodes[i].id.as_str(), id) {
            proof {
                assert(design@.nodes[i as int].id == id@);
            }
            return true;
        }
        i = i + 1;
    }
    false
}

fn note_exists(design: &Design, id: &str) -> (found: bool)
    ensures
        found == (exists|i: int| 0 <= i < design@.notes.len() && #[trigger] design@.notes[i].id == id@),
{
    let mut i: usize = 0;
    while i < design.notes.len()
        invariant
            i <= design.notes.len(),
            forall|j: int| 0 <= j < i ==> design@.notes[j].id != id@,
        decreases design.notes.len() - i,
    {
        if str_eq(design.notes[i].id.as_str(), id) {
            proof {
                assert(design@.notes[i as int].id == id@);
            }
            return true;
        }
        i = i + 1;
    }
    false
}

/// Keep the freshly loaded elements and unrelated layout entries, even if an
/// element was deleted while it was being dragged: only changed entries of
/// elements that still carry positions are saved, and only containers keep a size.
pub fn merge_positions(design: &mut Design, changed: &Layout)
    ensures
        final(design)@ == (DesignView { layout: final(design)@.layout, ..old(design)@ }),
        forall|x: Seq<char>| #[trigger] lookup(final(design)@.layout, x) == if has_key(changed@, x) && has_position(old(design)@, x) {
            Some(saved_entry(old(design)@, x, lookup(changed@, x).unwrap()))
        } else {
            lookup(old(design)@.layout, x)
        },
{
    let ghost d = design@;
    let items = changed.items();
    proof {
        use_type_invariant(changed);
    }
    for i in 0..items.len()
        invariant
            d == old(design)@,
            crate::id_map::entry_views(items@) == changed@,
            crate::id_map::keys_increasing(changed@),
            design@ == (DesignView { layout: design@.layout, ..d }),
            forall|x: Seq<char>| #[trigger] lookup(design@.layout, x) == if has_key(changed@.take(i as int), x) && has_position(d, x) {
                Some(saved_entry(d, x, lookup(changed@, x).unwrap()))
            } else {
                lookup(d.layout, x)
            },
    {
        let id = &items[i].0;
        let mut entry = items[i].1;
        let ghost key = id@;
        proof {
            assert(changed@[i as int] == (key, entry));
            crate::id_map::lemma_lookup_entry(changed@, i as int);
        }
        let keep = node_exists(design, id.as_str()) || container_exists(design, id.as_str()) || note_exists(design, id.as_str());
        let ghost before = design@.layout;
        if keep {
            if !container_exists(design, id.as_str()) {
                entry.size = None;
            }
            design.layout.insert(id.clone(), entry);
        }
        proof {
            assert forall|x: Seq<char>| #[trigger] lookup(design@.layout, x) == if has_key(changed@.take(i + 1), x) && has_position(d, x) {
                Some(saved_entry(d, x, lookup(changed@, x).unwrap()))
            } else {
                lookup(d.layout, x)
            } by {
                lemma_lookup_has_key(changed@.take(i + 1), x);
                lemma_lookup_has_key(changed@.take(i as int), x);
                if x == key {
                    assert(changed@.take(i + 1)[i as int].0 == key);
                } else {
                    if has_key(changed@.take(i + 1), x) {
                        let j = choose|j: int| 0 <= j < i + 1 && #[trigger] changed@.take(i + 1)[j].0 == x;
                        assert(changed@.take(i as int)[j].0 == x);
                    }
                    if has_key(changed@.take(i as int), x) {
                        let j = choose|j: int| 0 <= j < i && #[trigger] changed@.take(i as int)[j].0 == x;
                        assert(changed@.take(i + 1)[j].0 == x);
                    }
                }
            }
        }
    }
    proof {
        assert(changed@.take(items.len() as int) =~= changed@);
    }
}


/// `x` reaches container `id` by following at most `n` parent links.
pub open spec fn inside(containers: Seq<ContainerView>, x: Seq<char>, id: Seq<char>, n: nat) -> bool
    decreases n,
{
    if n == 0 {
        x == id
    } else {
        inside(containers, x, id, (n - 1) as nat) || exists|i: int|
            0 <= i < containers.len() && #[trigger] containers[i].id == x && containers[i].parent is Some
                && inside(containers, containers[i].parent.unwrap(), id, (n - 1) as nat)
    }
}

/// `x` is container `id` or is nested in it at any depth.
pub open spec fn within(containers: Seq<ContainerView>, x: Seq<char>, id: Seq<char>) -> bool {
    exists|n: nat| inside(containers, x, id, n)
}

/// Nodes in order: a node joins when its container is already in the set.
pub open spec fn node_sweep(nodes: Seq<NodeView>, ids: Set<Seq<char>>) -> Set<Seq<char>>
    decreases nodes.len(),
{
    if nodes.len() == 0 {
        ids
    } else {
        let before = node_sweep(nodes.drop_last(), ids);
        let node = nodes.last();
        if node.container is Some && before.contains(node.container.unwrap()) {
            before.insert(node.id)
        } else {
            before
        }
    }
}

/// The ids a drag of `id` moves: a container with everything nested in it
/// and the nodes inside those, or a single node.
pub open spec fn drag_ids(d: DesignView, id: Seq<char>) -> Set<Seq<char>> {
    if is_container(d, id) {
        node_sweep(d.nodes, Set::new(|x: Seq<char>| within(d.containers, x, id)))
    } else if exists|i: int| 0 <= i < d.nodes.len() && #[trigger] d.nodes[i].id == id {
        Set::empty().insert(id)
    } else {
        Set::empty()
    }
}

/// A set holding `id` and closed under children holds everything within `id`.
proof fn lemma_closed_contains(
    containers: Seq<ContainerView>,
    x: Seq<char>,
    id: Seq<char>,
    n: nat,
    ids: Seq<(Seq<char>, ())>,
)
    requires
        inside(containers, x, id, n),
        has_key(ids, id),
        forall|k: int|
            0 <= k < containers.len() && containers[k].parent is Some && has_key(ids, containers[k].parent.unwrap())
                ==> has_key(ids, #[trigger] containers[k].id),
    ensures
        has_key(ids, x),
    decreases n,
{
    if n > 0 {
        if inside(containers, x, id, (n - 1) as nat) {
            lemma_closed_contains(containers, x, id, (n - 1) as nat, ids);
        } else {
            let i = choose|i: int|
                0 <= i < containers.len() && #[trigger] containers[i].id == x && containers[i].parent is Some
                    && inside(containers, containers[i].parent.unwrap(), id, (n - 1) as nat);
            lemma_closed_contains(containers, containers[i].parent.unwrap(), id, (n - 1) as nat, ids);
        }
    }
}

proof fn lemma_inside_monotone(containers: Seq<ContainerView>, x: Seq<char>, id: Seq<char>, n: nat, m: nat)
    requires
        inside(containers, x, id, n),
        n <= m,
    ensures
        inside(containers, x, id, m),
    decreases m,
{
    if n < m {
        lemma_inside_monotone(containers, x, id, n, (m - 1) as nat);
    }
}

/// The ids that move when `id` is dragged, in id order.
pub fn drag_targets(design: &Design, id: &str) -> (ids: IdMap<()>)
    ensures
        key_set(ids@) == drag_ids(design@, id@),
{
    broadcast use vstd::set::group_set_axioms;
    let ghost d = design@;
    let mut ids: IdMap<()> = IdMap::new();
    if container_exists(design, id) {
        ids.insert(id.to_owned(), ());
        proof {
            assert(inside(d.containers, id@, id@, 0));
        }
        let ghost universe = d.containers.map_values(|c: ContainerView| (c.id, ())).push((id@, ()));
        proof {
            assert(universe[universe.len() - 1] == (id@, ()));
            lemma_has_key_at(universe, universe.len() - 1);
            assert forall|x: Seq<char>| #[trigger] has_key(ids@, x) implies x == id@ by {
                if has_key(ids@, x) && x != id@ {
                    assert(has_key(Seq::<(Seq<char>, ())>::empty(), x));
                }
            }
        }
        loop
            invariant
                d == design@,
                universe == d.containers.map_values(|c: ContainerView| (c.id, ())).push((id@, ())),
                has_key(ids@, id@),
                forall|x: Seq<char>| #[trigger] has_key(ids@, x) ==> within(d.containers, x, id@),
                forall|x: Seq<char>| #[trigger] has_key(ids@, x) ==> has_key(universe, x),
            ensures
                forall|x: Seq<char>| #[trigger] has_key(ids@, x) <==> within(d.containers, x, id@),
            decreases universe.len() + 1 - ids@.len(),
        {
            let before = ids.len();
            let ghost pass_start = ids@;
            for j in 0..design.containers.len()
                invariant
                    d == design@,
                    universe == d.containers.map_values(|c: ContainerView| (c.id, ())).push((id@, ())),
                    has_key(ids@, id@),
                    forall|x: Seq<char>| #[trigger] has_key(ids@, x) ==> within(d.containers, x, id@),
                    forall|x: Seq<char>| #[trigger] has_key(ids@, x) ==> has_key(universe, x),
                    forall|x: Seq<char>| #[trigger] has_key(pass_start, x) ==> has_key(ids@, x),
                    ids@.len() >= pass_start.len(),
                    ids@.len() == pass_start.len() ==> forall|x: Seq<char>| #[trigger] has_key(ids@, x) ==> has_key(pass_start, x),
                    forall|k: int| 0 <= k < j && d.containers[k].parent is Some && has_key(pass_start, d.containers[k].parent.unwrap()) ==> has_key(ids@, #[trigger] d.containers[k].id),
            {
                let container = &design.containers[j];
                let ghost prev = ids@;
                if let Some(parent) = &container.parent {
                    if ids.contains_key(parent.as_str()) {
                        let previous = ids.insert(container.id.clone(), ());
                        proof {
                            if previous is Some {
                                lemma_lookup_has_key(prev, d.containers[j as int].id);
                                assert forall|x: Seq<char>| #[trigger] has_key(ids@, x) implies has_key(prev, x) by {}
                            }
                            let p = d.containers[j as int].parent.unwrap();
                            assert(within(d.containers, p, id@));
                            let n = choose|n: nat| inside(d.containers, p, id@, n);
                            assert(inside(d.containers, d.containers[j as int].id, id@, n + 1));
                            assert(universe[j as int] == (d.containers[j as int].id, ()));
                            lemma_has_key_at(universe, j as int);
                        }
                    }
                }
                proof {
                    if d.containers[j as int].parent is Some && has_key(pass_start, d.containers[j as int].parent.unwrap()) {
                        assert(has_key(prev, d.containers[j as int].parent.unwrap()));
                    }
                }
            }
            if ids.len() == before {
                proof {
                    assert forall|x: Seq<char>| #[trigger] has_key(ids@, x) <==> within(d.containers, x, id@) by {
                        if within(d.containers, x, id@) {
                            let n = choose|n: nat| inside(d.containers, x, id@, n);
                            lemma_closed_contains(d.containers, x, id@, n, pass_start);
                        }
                    }
                }
                break;
            }
            proof {
                use_type_invariant(&ids);
                let keys = ids@.map_values(|e: (Seq<char>, ())| e.0);
                assert(keys.no_duplicates()) by {
                    assert forall|a: int, b: int| 0 <= a < keys.len() && 0 <= b < keys.len() && a != b implies keys[a] != keys[b] by {
                        if a < b {
                            crate::text::lemma_lex_asymmetric(ids@[a].0, ids@[b].0);
                        } else {
                            crate::text::lemma_lex_asymmetric(ids@[b].0, ids@[a].0);
                        }
                    }
                }
                assert forall|k: int| 0 <= k < keys.len() implies has_key(universe, #[trigger] keys[k]) by {
                    assert(ids@[k].0 == keys[k]);
                    lemma_has_key_at(ids@, k);
                }
                crate::validation::lemma_distinct_keys_bound(keys, universe);
            }
        }
        let ghost inner = Set::new(|x: Seq<char>| within(d.containers, x, id@));
        proof {
            assert(key_set(ids@) =~= node_sweep(d.nodes.take(0), inner));
        }
        for j in 0..design.nodes.len()
            invariant
                d == design@,
                key_set(ids@) == node_sweep(d.nodes.take(j as int), inner),
        {
            proof {
                assert(d.nodes.take(j + 1).drop_last() =~= d.nodes.take(j as int));
                assert(d.nodes.take(j + 1).last() == d.nodes[j as int]);
            }
            let node = &design.nodes[j];
            let ghost prev = ids@;
            let joins = match &node.container {
                Some(container) => ids.contains_key(container.as_str()),
                None => false,
            };
            if joins {
                ids.insert(node.id.clone(), ());
                proof {
                    assert(key_set(ids@) =~= key_set(prev).insert(node.id@));
                }
            }
        }
        proof {
            assert(d.nodes.take(d.nodes.len() as int) =~= d.nodes);
        }
    } else if node_exists(design, id) {
        ids.insert(id.to_owned(), ());
        proof {
            assert(key_set(ids@) =~= drag_ids(d, id@));
        }
    } else {
        proof {
            assert(key_set(ids@) =~= drag_ids(d, id@));
        }
    }
    ids
}


// ---------------------------------------------------------------------------
// Reloads

/// The binary64 number with these bits is not a number.
pub open spec fn is_nan(bits: u64) -> bool {
    (bits >> 52u64) & 0x7ffu64 == 0x7ffu64 && bits & 0xf_ffff_ffff_ffffu64 != 0
}

/// Equality of two binary64 numbers given by their bits: no NaN equals
/// anything, and the two zeros are equal.
pub open spec fn float_eq(a: u64, b: u64) -> bool {
    !is_nan(a) && !is_nan(b) && (a == b || (a & 0x7fff_ffff_ffff_ffffu64 == 0 && b & 0x7fff_ffff_ffff_ffffu64 == 0))
}

/// Two layout entries are equal as numbers.
pub open spec fn entry_eq(a: LayoutEntry, b: LayoutEntry) -> bool {
    &&& float_eq(a.x, b.x)
    &&& float_eq(a.y, b.y)
    &&& match (a.size, b.size) {
        (None, None) => true,
        (Some(s), Some(t)) => float_eq(s.width, t.width) && float_eq(s.height, t.height),
        _ => false,
    }
}

fn same_float(a: u64, b: u64) -> (same: bool)
    ensures
        same == float_eq(a, b),
{
    let a_nan = (a >> 52u64) & 0x7ffu64 == 0x7ffu64 && a & 0xf_ffff_ffff_ffffu64 != 0;
    let b_nan = (b >> 52u64) & 0x7ffu64 == 0x7ffu64 && b & 0xf_ffff_ffff_ffffu64 != 0;
    !a_nan && !b_nan && (a == b || (a & 0x7fff_ffff_ffff_ffffu64 == 0 && b & 0x7fff_ffff_ffff_ffffu64 == 0))
}

/// Whether two layout entries are equal as numbers.
pub fn same_entry(a: &LayoutEntry, b: &LayoutEntry) -> (same: bool)
    ensures
        same == entry_eq(*a, *b),
{
    same_float(a.x, b.x) && same_float(a.y, b.y) && match (a.size, b.size) {
        (None, None) => true,
        (Some(s), Some(t)) => same_float(s.width, t.width) && same_float(s.height, t.height),
        _ => false,
    }
}

/// Two layouts hold the same ids with equal entries.
pub open spec fn layouts_eq(a: Seq<(Seq<char>, LayoutEntry)>, b: Seq<(Seq<char>, LayoutEntry)>) -> bool {
    &&& a.len() == b.len()
    &&& forall|i: int| 0 <= i < a.len() ==> (#[trigger] a[i]).0 == b[i].0 && entry_eq(a[i].1, b[i].1)
}

/// Whether two layouts hold the same ids with equal entries.
pub fn same_layout(a: &Layout, b: &Layout) -> (same: bool)
    ensures
        same == layouts_eq(a@, b@),
{
    let x = a.items();
    let y = b.items();
    proof {
        assert(a@.len() == x.len() && b@.len() == y.len());
    }
    if x.len() != y.len() {
        return false;
    }
    for i in 0..x.len()
        invariant
            crate::id_map::entry_views(x@) == a@,
            crate::id_map::entry_views(y@) == b@,
            x.len() == y.len(),
            forall|j: int| 0 <= j < i ==> (#[trigger] a@[j]).0 == b@[j].0 && entry_eq(a@[j].1, b@[j].1),
    {
        proof {
            assert(a@[i as int] == (x@[i as int].0@, x@[i as int].1));
            assert(b@[i as int] == (y@[i as int].0@, y@[i as int].1));
        }
        if !(str_eq(x[i].0.as_str(), y[i].0.as_str()) && same_entry(&x[i].1, &y[i].1)) {
            return false;
        }
    }
    true
}

/// Whether a finished drag moved anything worth saving.
pub fn drag_changed(changed: &Layout, original: &Layout) -> (save: bool)
    ensures
        save == (changed@.len() > 0 && !layouts_eq(changed@, original@)),
{
    !changed.is_empty() && !same_layout(changed, original)
}

/// Whether `id` carries a position in the design.
pub fn has_position_id(design: &Design, id: &str) -> (found: bool)
    ensures
        found == has_position(design@, id@),
{
    node_exists(design, id) || container_exists(design, id) || note_exists(design, id)
}

/// The viewer's positions after a reload, before new elements are placed:
/// positions of elements that still carry one, overridden by every saved
/// entry that changed on disk or has no position yet.
pub open spec fn reconciled(saved: Seq<(Seq<char>, LayoutEntry)>, positions: Seq<(Seq<char>, LayoutEntry)>, d: DesignView, x: Seq<char>) -> Option<LayoutEntry> {
    let kept = if has_position(d, x) { lookup(positions, x) } else { None };
    match lookup(d.layout, x) {
        Some(entry) => {
            let unchanged = match lookup(saved, x) {
                Some(before) => entry_eq(before, entry),
                None => false,
            };
            if unchanged && kept is Some {
                kept
            } else {
                Some(entry)
            }
        },
        None => kept,
    }
}

/// Reconcile the viewer's positions with a freshly loaded design whose
/// previous saved layout was `saved`: keep transient positions of elements
/// still present, and take every saved entry that changed or is new.
pub fn reconcile(saved: &Layout, positions: &Layout, design: &Design) -> (next: Layout)
    ensures
        forall|x: Seq<char>| #[trigger] lookup(next@, x) == reconciled(saved@, positions@, design@, x),
{
    let ghost d = design@;
    let mut next: Layout = IdMap::new();
    let items = positions.items();
    proof {
        use_type_invariant(positions);
    }
    for i in 0..items.len()
        invariant
            d == design@,
            crate::id_map::entry_views(items@) == positions@,
            crate::id_map::keys_increasing(positions@),
            forall|x: Seq<char>| #[trigger] lookup(next@, x) == if has_key(positions@.take(i as int), x) && has_position(d, x) {
                lookup(positions@, x)
            } else {
                None
            },
    {
        let ghost key = positions@[i as int].0;
        proof {
            crate::id_map::lemma_lookup_entry(positions@, i as int);
        }
        let ghost before = next@;
        if has_position_id(design, items[i].0.as_str()) {
            next.insert(items[i].0.clone(), items[i].1);
        }
        proof {
            assert forall|x: Seq<char>| #[trigger] lookup(next@, x) == if has_key(positions@.take(i + 1), x) && has_position(d, x) {
                lookup(positions@, x)
            } else {
                None
            } by {
                if x != key {
                    if has_key(positions@.take(i + 1), x) {
                        let j = choose|j: int| 0 <= j < i + 1 && #[trigger] positions@.take(i + 1)[j].0 == x;
                        assert(positions@.take(i as int)[j].0 == x);
                    }
                    if has_key(positions@.take(i as int), x) {
                        let j = choose|j: int| 0 <= j < i && #[trigger] positions@.take(i as int)[j].0 == x;
                        assert(positions@.take(i + 1)[j].0 == x);
                    }
                } else {
                    assert(positions@.take(i + 1)[i as int].0 == key);
                }
            }
        }
    }
    proof {
        assert(positions@.take(items.len() as int) =~= positions@);
        assert forall|x: Seq<char>| #[trigger] lookup(next@, x) == if has_position(d, x) { lookup(positions@, x) } else { None } by {
            lemma_lookup_has_key(positions@, x);
        }
    }
    let ghost kept = next@;
    let entries = design.layout.items();
    proof {
        use_type_invariant(&design.layout);
    }
    for i in 0..entries.len()
        invariant
            d == design@,
            crate::id_map::entry_views(entries@) == d.layout,
            crate::id_map::keys_increasing(d.layout),
            forall|x: Seq<char>| #[trigger] lookup(kept, x) == if has_position(d, x) { lookup(positions@, x) } else { None },
            forall|x: Seq<char>| #[trigger] lookup(next@, x) == if has_key(d.layout.take(i as int), x) {
                reconciled(saved@, positions@, d, x)
            } else {
                lookup(kept, x)
            },
    {
        let ghost key = d.layout[i as int].0;
        let ghost entry = d.layout[i as int].1;
        proof {
            crate::id_map::lemma_lookup_entry(d.layout, i as int);
            assert(entries@[i as int].0@ == key && entries@[i as int].1 == entry);
            assert(lookup(next@, key) == lookup(kept, key)) by {
                if has_key(d.layout.take(i as int), key) {
                    let j = choose|j: int| 0 <= j < i && #[trigger] d.layout.take(i as int)[j].0 == key;
                    assert(crate::text::lex_lt(d.layout[j].0, d.layout[i as int].0));
                    crate::text::lemma_lex_irreflexive(key);
                }
            }
        }
        let unchanged = match saved.get(entries[i].0.as_str()) {
            Some(before) => same_entry(&before, &entries[i].1),
            None => false,
        };
        let ghost before_next = next@;
        if !(unchanged && next.contains_key(entries[i].0.as_str())) {
            next.insert(entries[i].0.clone(), entries[i].1);
        }
        proof {
            lemma_lookup_has_key(before_next, key);
            assert forall|x: Seq<char>| #[trigger] lookup(next@, x) == if has_key(d.layout.take(i + 1), x) {
                reconciled(saved@, positions@, d, x)
            } else {
                lookup(kept, x)
            } by {
                if x != key {
                    if has_key(d.layout.take(i + 1), x) {
                        let j = choose|j: int| 0 <= j < i + 1 && #[trigger] d.layout.take(i + 1)[j].0 == x;
                        assert(d.layout.take(i as int)[j].0 == x);
                    }
                    if has_key(d.layout.take(i as int), x) {
                        let j = choose|j: int| 0 <= j < i && #[trigger] d.layout.take(i as int)[j].0 == x;
                        assert(d.layout.take(i + 1)[j].0 == x);
                    }
                } else {
                    assert(d.layout.take(i + 1)[i as int].0 == key);
                }
            }
        }
    }
    proof {
        assert(d.layout.take(entries.len() as int) =~= d.layout);
        assert forall|x: Seq<char>| #[trigger] lookup(next@, x) == reconciled(saved@, positions@, d, x) by {
            lemma_lookup_has_key(d.layout, x);
        }
    }
    next
}

/// Some node, container, or note has no position yet.
pub open spec fn missing_positions(d: DesignView, positions: Seq<(Seq<char>, LayoutEntry)>) -> bool {
    exists|x: Seq<char>| has_position(d, x) && !#[trigger] has_key(positions, x)
}

/// Placement is needed exactly when some node, some container or some note
/// has no entry among the positions; a note without a position needs
/// placement just as a node or a container does.
pub proof fn law_placement_needed_for_any_element_without_position(
    d: DesignView,
    positions: Seq<(Seq<char>, LayoutEntry)>,
    needed: bool,
)
    requires
        needed == missing_positions(d, positions),
    ensures
        needed <==> {
            ||| exists|i: int| 0 <= i < d.nodes.len() && !has_key(positions, #[trigger] d.nodes[i].id)
            ||| exists|i: int| 0 <= i < d.containers.len() && !has_key(positions, #[trigger] d.containers[i].id)
            ||| exists|i: int| 0 <= i < d.notes.len() && !has_key(positions, #[trigger] d.notes[i].id)
        },
{
    if exists|i: int| 0 <= i < d.notes.len() && !has_key(positions, #[trigger] d.notes[i].id) {
        let i = choose|i: int| 0 <= i < d.notes.len() && !has_key(positions, #[trigger] d.notes[i].id);
        assert(has_position(d, d.notes[i].id));
    }
    if exists|i: int| 0 <= i < d.nodes.len() && !has_key(positions, #[trigger] d.nodes[i].id) {
        let i = choose|i: int| 0 <= i < d.nodes.len() && !has_key(positions, #[trigger] d.nodes[i].id);
        assert(has_position(d, d.nodes[i].id));
    }
    if exists|i: int| 0 <= i < d.containers.len() && !has_key(positions, #[trigger] d.containers[i].id) {
        let i = choose|i: int| 0 <= i < d.containers.len() && !has_key(positions, #[trigger] d.containers[i].id);
        assert(has_position(d, d.containers[i].id));
    }
}

/// Whether some node, container, or note still needs a position.
pub fn needs_placement(design: &Design, positions: &Layout) -> (needed: bool)
    ensures
        needed == missing_positions(design@, positions@),
{
    let ghost d = design@;
    for i in 0..design.nodes.len()
        invariant
            d == design@,
            forall|j: int| 0 <= j < i ==> has_key(positions@, (#[trigger] d.nodes[j]).id),
    {
        if !positions.contains_key(design.nodes[i].id.as_str()) {
            proof {
                assert(has_position(d, d.nodes[i as int].id));
            }
            return true;
        }
    }
    for i in 0..design.containers.len()
        invariant
            d == design@,
            forall|j: int| 0 <= j < d.nodes.len() ==> has_key(positions@, (#[trigger] d.nodes[j]).id),
            forall|j: int| 0 <= j < i ==> has_key(positions@, (#[trigger] d.containers[j]).id),
    {
        if !positions.contains_key(design.containers[i].id.as_str()) {
            proof {
                assert(has_position(d, d.containers[i as int].id));
            }
            return true;
        }
    }
    for i in 0..design.notes.len()
        invariant
            d == design@,
            forall|j: int| 0 <= j < d.nodes.len() ==> has_key(positions@, (#[trigger] d.nodes[j]).id),
            forall|j: int| 0 <= j < d.containers.len() ==> has_key(positions@, (#[trigger] d.containers[j]).id),
            forall|j: int| 0 <= j < i ==> has_key(positions@, (#[trigger] d.notes[j]).id),
    {
        if !positions.contains_key(design.notes[i].id.as_str()) {
            proof {
                assert(has_position(d, d.notes[i as int].id));
            }
            return true;
        }
    }
    false
}

/// A selection survives a reload while its element, or an edge with its id, exists.
pub open spec fn selection_kept(d: DesignView, id: Seq<char>) -> bool {
    has_position(d, id) || exists|i: int| 0 <= i < d.edges.len() && #[trigger] d.edges[i].id == id
}

/// Whether the selected id still names something in the design.
pub fn keeps_selection(design: &Design, id: &str) -> (kept: bool)
    ensures
        kept == selection_kept(design@, id@),
{
    if has_position_id(design, id) {
        return true;
    }
    for i in 0..design.edges.len()
        invariant
            forall|j: int| 0 <= j < i ==> (#[trigger] design@.edges[j]).id != id@,
    {
        if str_eq(design.edges[i].id.as_str(), id) {
            proof {
                assert(design@.edges[i as int].id == id@);
            }
            return true;
        }
    }
    false
}

// ---------------------------------------------------------------------------
// Status

/// `n` with at least two digits.
pub open spec fn two_digits(n: nat) -> Seq<char> {
    if n < 10 {
        "0"@ + crate::text::spec_decimal(n)
    } else {
        crate::text::spec_decimal(n)
    }
}

/// The time of day, in UTC, of a moment given in seconds since the Unix epoch.
pub open spec fn clock(seconds: nat) -> Seq<char> {
    let t = seconds % 86400;
    two_digits(t / 3600) + ":"@ + two_digits(t / 60 % 60) + ":"@ + two_digits(t % 60)
}

/// The viewer's status: when it last reloaded, then the last error if any.
pub open spec fn status_line(seconds: nat, error: Option<Seq<char>>) -> Seq<char> {
    "Last reload "@ + clock(seconds) + " UTC"@ + match error {
        Some(text) => "\n"@ + text,
        None => Seq::empty(),
    }
}

fn two_digit_text(n: u64) -> (text: String)
    ensures
        text@ == two_digits(n as nat),
{
    let digits = crate::text::decimal(n);
    if n < 10 {
        let mut text = String::from_str("0");
        text.append(digits.as_str());
        proof {
            reveal_strlit("0");
        }
        text
    } else {
        digits
    }
}

/// The status line for a reload at `seconds` since the Unix epoch, with
/// the last error on a line of its own.
pub fn status_text(seconds: u64, error: &Option<String>) -> (text: String)
    ensures
        text@ == status_line(seconds as nat, error.deep_view()),
{
    let t = seconds % 86400;
    let mut text = String::from_str("Last reload ");
    let hours = two_digit_text(t / 3600);
    text.append(hours.as_str());
    text.append(":");
    let minutes = two_digit_text(t / 60 % 60);
    text.append(minutes.as_str());
    text.append(":");
    let secs = two_digit_text(t % 60);
    text.append(secs.as_str());
    text.append(" UTC");
    if let Some(message) = error {
        text.append("\n");
        text.append(message.as_str());
    }
    proof {
        reveal_strlit("Last reload ");
        reveal_strlit(":");
        reveal_strlit(" UTC");
        reveal_strlit("\n");
    }
    text
}
} // verus!
