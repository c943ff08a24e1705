//! Maps keyed by element id, kept in id order, and the sequence model they share.

use vstd::prelude::*;

use crate::text::{chars_of, compare_chars, lemma_lex_asymmetric, lemma_lex_irreflexive, lemma_lex_total, lemma_lex_transitive, lex_lt, str_eq, Comparison};

verus! {

/// Keys strictly increase, so each id occurs once and the entries are in id order.
pub open spec fn keys_increasing<V>(s: Seq<(Seq<char>, V)>) -> bool {
    forall|i: int, j: int| 0 <= i < j < s.len() ==> lex_lt(#[trigger] s[i].0, #[trigger] s[j].0)
}

/// Whether some entry has this key.
pub open spec fn has_key<V>(s: Seq<(Seq<char>, V)>, k: Seq<char>) -> bool {
    exists|i: int| 0 <= i < s.len() && #[trigger] s[i].0 == k
}

/// The value of the last entry with this key: what a map holds after its
/// entries were inserted in order.
pub open spec fn lookup<V>(s: Seq<(Seq<char>, V)>, k: Seq<char>) -> Option<V>
    decreases s.len(),
{
    if s.len() == 0 {
        None
    } else if s.last().0 == k {
        Some(s.last().1)
    } else {
        lookup(s.drop_last(), k)
    }
}

pub proof fn lemma_lookup_has_key<V>(s: Seq<(Seq<char>, V)>, k: Seq<char>)
    ensures
        lookup(s, k) is Some <==> has_key(s, k),
        lookup(s, k) matches Some(v) ==> exists|i: int| 0 <= i < s.len() && #[trigger] s[i] == (k, v),
    decreases s.len(),
{
    if s.len() > 0 {
        lemma_lookup_has_key(s.drop_last(), k);
        if s.last().0 != k {
            if has_key(s, k) {
                let i = choose|i: int| 0 <= i < s.len() && #[trigger] s[i].0 == k;
                assert(s.drop_last()[i].0 == k);
            }
            if has_key(s.drop_last(), k) {
                let i = choose|i: int| 0 <= i < s.drop_last().len() && #[trigger] s.drop_last()[i].0 == k;
                assert(s[i].0 == k);
            }
            if let Some(v) = lookup(s, k) {
                let i = choose|i: int| 0 <= i < s.drop_last().len() && #[trigger] s.drop_last()[i] == (k, v);
                assert(s[i] == (k, v));
            }
        } else {
            assert(s[s.len() - 1].0 == k);
            assert(s[s.len() - 1] == (k, s.last().1));
        }
    }
}

pub proof fn lemma_has_key_at<V>(s: Seq<(Seq<char>, V)>, i: int)
    requires
        0 <= i < s.len(),
    ensures
        has_key(s, s[i].0),
{
}

/// In a map with distinct keys, each entry is what a lookup of its key finds.
pub proof fn lemma_lookup_entry<V>(s: Seq<(Seq<char>, V)>, i: int)
    requires
        keys_increasing(s),
        0 <= i < s.len(),
    ensures
        lookup(s, s[i].0) == Some(s[i].1),
    decreases s.len(),
{
    if i < s.len() - 1 {
        lemma_lex_asymmetric(s[i].0, s[s.len() - 1].0);
        assert(keys_increasing(s.drop_last()));
        assert(s.drop_last()[i] == s[i]);
        lemma_lookup_entry(s.drop_last(), i);
    }
}

/// The keys of a sequence of pairs, as a set.
pub open spec fn key_set<V>(s: Seq<(Seq<char>, V)>) -> Set<Seq<char>> {
    Set::new(|x: Seq<char>| has_key(s, x))
}

/// The entries of `s` whose keys are not in `r`, in order.
pub open spec fn without<V>(s: Seq<(Seq<char>, V)>, r: Set<Seq<char>>) -> Seq<(Seq<char>, V)>
    decreases s.len(),
{
    if s.len() == 0 {
        s
    } else {
        let rest = without(s.drop_last(), r);
        if r.contains(s.last().0) {
            rest
        } else {
            rest.push(s.last())
        }
    }
}

pub proof fn lemma_without<V>(s: Seq<(Seq<char>, V)>, r: Set<Seq<char>>)
    ensures
        forall|x: Seq<char>| #[trigger] lookup(without(s, r), x) == if r.contains(x) {
            None
        } else {
            lookup(s, x)
        },
        forall|j: int|
            0 <= j < without(s, r).len() ==> exists|i: int|
                0 <= i < s.len() && s[i] == #[trigger] without(s, r)[j],
        keys_increasing(s) ==> keys_increasing(without(s, r)),
    decreases s.len(),
{
    if s.len() > 0 {
        let rest = without(s.drop_last(), r);
        lemma_without(s.drop_last(), r);
        assert forall|x: Seq<char>| #[trigger] lookup(without(s, r), x) == if r.contains(x) {
            None
        } else {
            lookup(s, x)
        } by {
            assert(lookup(rest, x) == if r.contains(x) {
                None
            } else {
                lookup(s.drop_last(), x)
            });
            if !r.contains(s.last().0) {
                let pushed = rest.push(s.last());
                assert(pushed.drop_last() =~= rest);
                assert(pushed.last() == s.last());
                assert(lookup(pushed, x) == if s.last().0 == x {
                    Some(s.last().1)
                } else {
                    lookup(rest, x)
                });
            }
        }
        assert forall|j: int| 0 <= j < without(s, r).len() implies exists|i: int|
            0 <= i < s.len() && s[i] == #[trigger] without(s, r)[j] by {
            if j < rest.len() {
                let i = choose|i: int| 0 <= i < s.drop_last().len() && s.drop_last()[i] == #[trigger] rest[j];
                assert(s[i] == without(s, r)[j]);
            } else {
                assert(s[s.len() - 1] == without(s, r)[j]);
            }
        }
        if keys_increasing(s) {
            assert(keys_increasing(s.drop_last()));
            assert forall|a: int, b: int| 0 <= a < b < without(s, r).len() implies lex_lt(
                #[trigger] without(s, r)[a].0,
                #[trigger] without(s, r)[b].0,
            ) by {
                if b == rest.len() && !r.contains(s.last().0) {
                    let i = choose|i: int| 0 <= i < s.drop_last().len() && s.drop_last()[i] == #[trigger] rest[a];
                    assert(s[i] == rest[a]);
                } else {
                    assert(without(s, r)[a] == rest[a]);
                    assert(without(s, r)[b] == rest[b]);
                }
            }
        }
    }
}

/// A sorted map with String keys. It keeps its own entries, sorted by the
/// character order of `lex_lt`: std's `BTreeMap` would order `String` keys by
/// an `Ord` that vstd gives no specification, so nothing could be proved of
/// its contents.
#[derive(Debug, PartialEq)]
pub struct IdMap<V> {
    items: Vec<(String, V)>,
}

/// The model of a map's entries: keys as character sequences, in id order.
pub open spec fn entry_views<V>(items: Seq<(String, V)>) -> Seq<(Seq<char>, V)> {
    items.map_values(|item: (String, V)| (item.0@, item.1))
}

impl<V> View for IdMap<V> {
    type V = Seq<(Seq<char>, V)>;

    closed spec fn view(&self) -> Seq<(Seq<char>, V)> {
        entry_views(self.items@)
    }
}

impl<V> IdMap<V> {
    #[verifier::type_invariant]
    pub open spec fn ordered(self) -> bool {
        keys_increasing(self@)
    }
}

impl<V: Copy> IdMap<V> {
    /// An empty map.
    pub fn new() -> (m: Self)
        ensures
            m@.len() == 0,
    {
        let m = IdMap { items: Vec::new() };
        proof {
            assert(m@ =~= Seq::<(Seq<char>, V)>::empty());
        }
        m
    }

    pub fn len(&self) -> (n: usize)
        ensures
            n == self@.len(),
    {
        self.items.len()
    }

    pub fn is_empty(&self) -> (empty: bool)
        ensures
            empty == (self@.len() == 0),
    {
        self.items.len() == 0
    }

    /// The entries in id order.
    pub fn items(&self) -> (items: &Vec<(String, V)>)
        ensures
            entry_views(items@) == self@,
    {
        &self.items
    }

    /// The first position whose key does not order before `key`.
    fn position(&self, key: &Vec<char>) -> (p: usize)
        ensures
            p <= self@.len(),
            forall|i: int| 0 <= i < p ==> lex_lt(#[trigger] self@[i].0, key@),
            forall|i: int| p <= i < self@.len() ==> !lex_lt(#[trigger] self@[i].0, key@),
    {
        proof {
            use_type_invariant(self);
        }
        let mut lo: usize = 0;
        let mut hi: usize = self.items.len();
        while lo < hi
            invariant
                lo <= hi <= self@.len(),
                self@.len() == self.items@.len(),
                keys_increasing(self@),
                forall|i: int| 0 <= i < lo ==> lex_lt(#[trigger] self@[i].0, key@),
                forall|i: int| hi <= i < self@.len() ==> !lex_lt(#[trigger] self@[i].0, key@),
            decreases hi - lo,
        {
            let mid = lo + (hi - lo) / 2;
            let probe = chars_of(self.items[mid].0.as_str());
            proof {
                assert(self@[mid as int].0 == self.items@[mid as int].0@);
            }
            if compare_chars(&probe, key) == Comparison::Before {
                proof {
                    assert forall|i: int| 0 <= i < mid + 1 implies lex_lt(#[trigger] self@[i].0, key@) by {
                        if i < mid {
                            lemma_lex_transitive(self@[i].0, self@[mid as int].0, key@);
                        }
                    }
                }
                lo = mid + 1;
            } else {
                proof {
                    lemma_lex_irreflexive(key@);
                    assert forall|i: int| mid <= i < self@.len() implies !lex_lt(#[trigger] self@[i].0, key@) by {
                        if i > mid && lex_lt(self@[i].0, key@) {
                            assert(lex_lt(self@[mid as int].0, self@[i].0));
                            lemma_lex_total(self@[mid as int].0, key@);
                            if self@[mid as int].0 == key@ {
                                lemma_lex_asymmetric(self@[mid as int].0, self@[i].0);
                            } else {
                                lemma_lex_transitive(key@, self@[mid as int].0, self@[i].0);
                                lemma_lex_asymmetric(key@, self@[i].0);
                            }
                        }
                    }
                }
                hi = mid;
            }
        }
        lo
    }

    /// The value saved for `key`, if any.
    pub fn get(&self, key: &str) -> (value: Option<V>)
        ensures
            value == lookup(self@, key@),
    {
        proof {
            use_type_invariant(self);
        }
        let chars = chars_of(key);
        let p = self.position(&chars);
        if p < self.items.len() && str_eq(self.items[p].0.as_str(), key) {
            proof {
                lemma_lookup_entry(self@, p as int);
            }
            Some(self.items[p].1)
        } else {
            proof {
                lemma_lookup_has_key(self@, key@);
                if has_key(self@, key@) {
                    let i = choose|i: int| 0 <= i < self@.len() && #[trigger] self@[i].0 == key@;
                    lemma_lex_irreflexive(key@);
                    if i > p {
                        lemma_lex_total(self@[p as int].0, key@);
                        lemma_lex_asymmetric(self@[p as int].0, self@[i].0);
                    }
                }
            }
            None
        }
    }

    /// Set the value for `key`, returning the value it replaced.
    pub fn insert(&mut self, key: String, value: V) -> (previous: Option<V>)
        ensures
            previous == lookup(old(self)@, key@),
            forall|x: Seq<char>| #[trigger] lookup(final(self)@, x) == if x == key@ {
                Some(value)
            } else {
                lookup(old(self)@, x)
            },
            forall|x: Seq<char>| #[trigger] has_key(final(self)@, x) <==> has_key(old(self)@, x) || x == key@,
            final(self)@.len() == old(self)@.len() + if previous is None { 1int } else { 0int },
    {
        proof {
            use_type_invariant(&*self);
        }
        let ghost before = self@;
        let chars = chars_of(key.as_str());
        let p = self.position(&chars);
        proof {
            lemma_lookup_has_key(before, key@);
            lemma_lex_irreflexive(key@);
        }
        if p < self.items.len() && str_eq(self.items[p].0.as_str(), key.as_str()) {
            proof {
                lemma_lookup_entry(before, p as int);
            }
            let previous = self.items[p].1;
            let mut items: Vec<(String, V)> = Vec::new();
            std::mem::swap(&mut items, &mut self.items);
            items.set(p, (key, value));
            proof {
                assert(entry_views(items@) =~= before.update(p as int, (key@, value)));
                assert(keys_increasing(entry_views(items@)));
                assert forall|x: Seq<char>| #[trigger] lookup(entry_views(items@), x) == if x == key@ {
                    Some(value)
                } else {
                    lookup(before, x)
                } by {
                    let after = entry_views(items@);
                    lemma_lookup_has_key(after, x);
                    lemma_lookup_has_key(before, x);
                    if x == key@ {
                        lemma_lookup_entry(after, p as int);
                    } else if let Some(v) = lookup(before, x) {
                        let i = choose|i: int| 0 <= i < before.len() && #[trigger] before[i] == (x, v);
                        assert(after[i] == (x, v));
                        lemma_lookup_entry(after, i);
                    } else if let Some(v) = lookup(after, x) {
                        let i = choose|i: int| 0 <= i < after.len() && #[trigger] after[i] == (x, v);
                        assert(before[i] == (x, v));
                    }
                }
                assert forall|x: Seq<char>| #[trigger] has_key(entry_views(items@), x) <==> has_key(before, x) || x == key@ by {
                    lemma_lookup_has_key(entry_views(items@), x);
                    lemma_lookup_has_key(before, x);
                }
            }
            self.items = items;
            Some(previous)
        } else {
            proof {
                if has_key(before, key@) {
                    let i = choose|i: int| 0 <= i < before.len() && #[trigger] before[i].0 == key@;
                    if i > p {
                        lemma_lex_total(before[p as int].0, key@);
                        lemma_lex_asymmetric(before[p as int].0, before[i].0);
                    }
                }
            }
            let mut items: Vec<(String, V)> = Vec::new();
            std::mem::swap(&mut items, &mut self.items);
            items.insert(p, (key, value));
            proof {
                let after = entry_views(items@);
                assert(after =~= before.insert(p as int, (key@, value)));
                assert forall|a: int, b: int| 0 <= a < b < after.len() implies lex_lt(
                    #[trigger] after[a].0,
                    #[trigger] after[b].0,
                ) by {
                    if b < p {
                    } else if b == p {
                    } else if a < p {
                        assert(after[b] == before[b - 1]);
                        assert(lex_lt(before[a].0, key@));
                        assert(!lex_lt(before[b - 1].0, key@));
                        lemma_lex_total(before[b - 1].0, key@);
                        lemma_lex_transitive(before[a].0, key@, before[b - 1].0);
                    } else if a == p {
                        assert(!lex_lt(before[b - 1].0, key@));
                        lemma_lex_total(before[b - 1].0, key@);
                    } else {
                        assert(after[a] == before[a - 1]);
                        assert(after[b] == before[b - 1]);
                    }
                }
                assert forall|x: Seq<char>| #[trigger] lookup(after, x) == if x == key@ {
                    Some(value)
                } else {
                    lookup(before, x)
                } by {
                    lemma_lookup_has_key(after, x);
                    lemma_lookup_has_key(before, x);
                    if x == key@ {
                        lemma_lookup_entry(after, p as int);
                    } else if let Some(v) = lookup(before, x) {
                        let i = choose|i: int| 0 <= i < before.len() && #[trigger] before[i] == (x, v);
                        if i < p {
                            assert(after[i] == (x, v));
                            lemma_lookup_entry(after, i);
                        } else {
                            assert(after[i + 1] == (x, v));
                            lemma_lookup_entry(after, i + 1);
                        }
                    } else if let Some(v) = lookup(after, x) {
                        let i = choose|i: int| 0 <= i < after.len() && #[trigger] after[i] == (x, v);
                        if i < p {
                            assert(before[i] == (x, v));
                        } else {
                            assert(before[i - 1] == (x, v));
                        }
                    }
                }
                assert forall|x: Seq<char>| #[trigger] has_key(after, x) <==> has_key(before, x) || x == key@ by {
                    lemma_lookup_has_key(after, x);
                    lemma_lookup_has_key(before, x);
                }
            }
            self.items = items;
            None
        }
    }

    /// Insert every entry of `other`, replacing the values of keys present in both.
    pub fn extend(&mut self, other: &IdMap<V>)
        ensures
            forall|x: Seq<char>| #[trigger] lookup(final(self)@, x) == if has_key(other@, x) {
                lookup(other@, x)
            } else {
                lookup(old(self)@, x)
            },
    {
        let items = other.items();
        proof {
            use_type_invariant(other);
        }
        let ghost start = self@;
        for i in 0..items.len()
            invariant
                entry_views(items@) == other@,
                keys_increasing(other@),
                forall|x: Seq<char>| #[trigger] lookup(self@, x) == if has_key(other@.take(i as int), x) {
                    lookup(other@, x)
                } else {
                    lookup(start, x)
                },
        {
            let ghost key = other@[i as int].0;
            proof {
                lemma_lookup_entry(other@, i as int);
            }
            self.insert(items[i].0.clone(), items[i].1);
            proof {
                assert forall|x: Seq<char>| #[trigger] lookup(self@, x) == if has_key(other@.take(i + 1), x) {
                    lookup(other@, x)
                } else {
                    lookup(start, x)
                } by {
                    if x != key {
                        if has_key(other@.take(i + 1), x) {
                            let j = choose|j: int| 0 <= j < i + 1 && #[trigger] other@.take(i + 1)[j].0 == x;
                            assert(other@.take(i as int)[j].0 == x);
                        }
                        if has_key(other@.take(i as int), x) {
                            let j = choose|j: int| 0 <= j < i && #[trigger] other@.take(i as int)[j].0 == x;
                            assert(other@.take(i + 1)[j].0 == x);
                        }
                    } else {
                        assert(other@.take(i + 1)[i as int].0 == key);
                    }
                }
            }
        }
        proof {
            assert(other@.take(items.len() as int) =~= other@);
        }
    }

    /// Insert the entries of `other` whose keys are missing; present keys keep their values.
    pub fn fill_missing(&mut self, other: &IdMap<V>)
        ensures
            forall|x: Seq<char>| #[trigger] lookup(final(self)@, x) == if has_key(old(self)@, x) {
                lookup(old(self)@, x)
            } else {
                lookup(other@, x)
            },
    {
        let items = other.items();
        proof {
            use_type_invariant(other);
        }
        let ghost start = self@;
        proof {
            assert forall|x: Seq<char>| #[trigger] lookup(self@, x) == if has_key(start, x) {
                lookup(start, x)
            } else if has_key(other@.take(0), x) {
                lookup(other@, x)
            } else {
                None
            } by {
                lemma_lookup_has_key(start, x);
            }
        }
        for i in 0..items.len()
            invariant
                entry_views(items@) == other@,
                keys_increasing(other@),
                forall|x: Seq<char>| #[trigger] lookup(self@, x) == if has_key(start, x) {
                    lookup(start, x)
                } else if has_key(other@.take(i as int), x) {
                    lookup(other@, x)
                } else {
                    None
                },
        {
            let ghost key = other@[i as int].0;
            proof {
                lemma_lookup_entry(other@, i as int);
            }
            let ghost before = self@;
            if !self.contains_key(items[i].0.as_str()) {
                self.insert(items[i].0.clone(), items[i].1);
            }
            proof {
                assert forall|x: Seq<char>| #[trigger] lookup(self@, x) == if has_key(start, x) {
                    lookup(start, x)
                } else if has_key(other@.take(i + 1), x) {
                    lookup(other@, x)
                } else {
                    None
                } by {
                    lemma_lookup_has_key(start, x);
                    lemma_lookup_has_key(before, x);
                    if x != key {
                        if has_key(other@.take(i + 1), x) {
                            let j = choose|j: int| 0 <= j < i + 1 && #[trigger] other@.take(i + 1)[j].0 == x;
                            assert(other@.take(i as int)[j].0 == x);
                        }
                        if has_key(other@.take(i as int), x) {
                            let j = choose|j: int| 0 <= j < i && #[trigger] other@.take(i as int)[j].0 == x;
                            assert(other@.take(i + 1)[j].0 == x);
                        }
                    } else {
                        assert(other@.take(i + 1)[i as int].0 == key);
                    }
                }
            }
        }
        proof {
            assert(other@.take(items.len() as int) =~= other@);
            assert forall|x: Seq<char>| #[trigger] lookup(self@, x) == if has_key(start, x) {
                lookup(start, x)
            } else {
                lookup(other@, x)
            } by {
                lemma_lookup_has_key(other@, x);
            }
        }
    }

    /// Remove every entry.
    pub fn clear(&mut self)
        ensures
            final(self)@.len() == 0,
    {
        self.items = Vec::new();
        proof {
            assert(self@ =~= Seq::<(Seq<char>, V)>::empty());
        }
    }

    /// Keep only the entries whose keys `removed` lacks, in order.
    pub fn remove_keys<W: Copy>(&mut self, removed: &IdMap<W>)
        ensures
            final(self)@ == without(old(self)@, key_set(removed@)),
    {
        proof {
            use_type_invariant(&*self);
            lemma_without(self@, key_set(removed@));
        }
        let ghost before = self@;
        let mut old_items: Vec<(String, V)> = Vec::new();
        std::mem::swap(&mut old_items, &mut self.items);
        let mut items: Vec<(String, V)> = Vec::new();
        for i in 0..old_items.len()
            invariant
                entry_views(old_items@) == before,
                entry_views(items@) == without(before.take(i as int), key_set(removed@)),
        {
            proof {
                assert(before.take(i + 1).drop_last() =~= before.take(i as int));
            }
            let key = &old_items[i].0;
            if !removed.contains_key(key.as_str()) {
                let ghost prev = items@;
                items.push((key.clone(), old_items[i].1));
                proof {
                    assert(entry_views(items@) =~= entry_views(prev).push(before[i as int]));
                }
            }
        }
        proof {
            assert(before.take(before.len() as int) =~= before);
        }
        self.items = items;
    }

    pub fn contains_key(&self, key: &str) -> (found: bool)
        ensures
            found == has_key(self@, key@),
    {
        proof {
            lemma_lookup_has_key(self@, key@);
        }
        self.get(key).is_some()
    }
}


impl<V: Copy> Clone for IdMap<V> {
    fn clone(&self) -> (out: Self)
        ensures
            out@ == self@,
    {
        proof {
            use_type_invariant(self);
        }
        let mut items: Vec<(String, V)> = Vec::new();
        for i in 0..self.items.len()
            invariant
                items.len() == i,
                entry_views(items@) == entry_views(self.items@.take(i as int)),
        {
            let ghost prev = items@;
            let item = &self.items[i];
            let key = item.0.clone();
            items.push((key, item.1));
            proof {
                assert forall|j: int| 0 <= j < i + 1 implies entry_views(items@)[j]
                    == entry_views(self.items@.take(i + 1))[j] by {
                    if j < i {
                        assert(entry_views(prev)[j] == entry_views(self.items@.take(i as int))[j]);
                        assert(items@[j] == prev[j]);
                    }
                }
                assert(entry_views(items@) =~= entry_views(self.items@.take(i + 1)));
            }
        }
        proof {
            assert(self.items@.take(self.items@.len() as int) =~= self.items@);
        }
        IdMap { items }
    }
}

} // verus!
