//! Container ancestry: a design that validates has no parent cycle, so every
//! chain of parents reaches the top within as many steps as there are ids.

use vstd::prelude::*;

use crate::id_map::{has_key, key_set, lemma_lookup_has_key};
use crate::validation::{
    cycle_problems, cycle_reports, lemma_distinct_keys_bound, parent_of, spec_is_valid, parent_pairs, sorted_ids, strictly_increasing, walk,
};
use crate::model::{ContainerView, DesignView};
use crate::text::{lemma_lex_total, lemma_lex_transitive, lex_lt};

verus! {

/// The ancestor `k` parent links above `x`; `x` itself for `k == 0`.
pub open spec fn ancestor(parents: Seq<(Seq<char>, Option<Seq<char>>)>, x: Seq<char>, k: nat) -> Option<Seq<char>>
    decreases k,
{
    if k == 0 {
        Some(x)
    } else {
        match ancestor(parents, x, (k - 1) as nat) {
            Some(y) => parent_of(parents, y),
            None => None,
        }
    }
}

/// No id is its own ancestor.
pub open spec fn acyclic(parents: Seq<(Seq<char>, Option<Seq<char>>)>) -> bool {
    forall|x: Seq<char>, k: nat| k >= 1 ==> #[trigger] ancestor(parents, x, k) != Some(x)
}

/// Ids on the cycle through `x` of length `k`.
pub open spec fn on_cycle(parents: Seq<(Seq<char>, Option<Seq<char>>)>, x: Seq<char>, k: nat, y: Seq<char>) -> bool {
    exists|i: nat| i < k && #[trigger] ancestor(parents, x, i) == Some(y)
}

/// The walk state that `walk` keeps: the path has no repeats, and while the
/// walk goes on every id on it is a container id.
pub open spec fn walk_state(parents: Seq<(Seq<char>, Option<Seq<char>>)>, path: Seq<Seq<char>>, current: Option<Seq<char>>) -> bool {
    &&& path.no_duplicates()
    &&& current is Some ==> forall|j: int| 0 <= j < path.len() ==> has_key(parents, #[trigger] path[j])
}

pub proof fn lemma_ancestor_some_below(parents: Seq<(Seq<char>, Option<Seq<char>>)>, x: Seq<char>, i: nat, k: nat)
    requires
        i <= k,
        ancestor(parents, x, k) is Some,
    ensures
        ancestor(parents, x, i) is Some,
    decreases k - i,
{
    if i < k {
        lemma_ancestor_some_below(parents, x, i, (k - 1) as nat);
    }
}

/// Ancestors compose: the `j`-th ancestor of the `i`-th ancestor is the `i + j`-th.
pub proof fn lemma_ancestor_add(parents: Seq<(Seq<char>, Option<Seq<char>>)>, x: Seq<char>, i: nat, j: nat)
    requires
        ancestor(parents, x, i) is Some,
    ensures
        ancestor(parents, ancestor(parents, x, i).unwrap(), j) == ancestor(parents, x, i + j),
    decreases j,
{
    if j > 0 {
        lemma_ancestor_add(parents, x, i, (j - 1) as nat);
        assert((i + j - 1) as nat == i + (j - 1) as nat);
    }
}

/// Every id on a cycle has a parent, which is on the cycle too.
proof fn lemma_cycle_closed(parents: Seq<(Seq<char>, Option<Seq<char>>)>, x: Seq<char>, k: nat, y: Seq<char>)
    requires
        k >= 1,
        ancestor(parents, x, k) == Some(x),
        on_cycle(parents, x, k, y),
    ensures
        parent_of(parents, y) is Some,
        on_cycle(parents, x, k, parent_of(parents, y).unwrap()),
        has_key(parents, y),
{
    let i = choose|i: nat| i < k && #[trigger] ancestor(parents, x, i) == Some(y);
    lemma_ancestor_some_below(parents, x, i + 1, k);
    assert(ancestor(parents, x, i + 1) == parent_of(parents, y));
    if i + 1 == k {
        assert(ancestor(parents, x, 0) == Some(x));
    } else {
        assert(ancestor(parents, x, i + 1) == Some(parent_of(parents, y).unwrap()));
    }
    lemma_lookup_has_key(parents, y);
}

/// A walk that is on the cycle reports a cycle.
proof fn lemma_walk_on_cycle_reports(
    parents: Seq<(Seq<char>, Option<Seq<char>>)>,
    x: Seq<char>,
    k: nat,
    seen: Set<Seq<char>>,
    path: Seq<Seq<char>>,
    c: Seq<char>,
)
    requires
        k >= 1,
        ancestor(parents, x, k) == Some(x),
        on_cycle(parents, x, k, c),
        forall|y: Seq<char>| on_cycle(parents, x, k, y) ==> !seen.contains(y),
        walk_state(parents, path, Some(c)),
    ensures
        walk(parents, seen, path, Some(c)).1 is Some,
    decreases parents.len() + 1 - path.len(),
{
    lemma_cycle_closed(parents, x, k, c);
    if !path.contains(c) {
        lemma_distinct_keys_bound(path, parents);
        let next = path.push(c);
        let p = parent_of(parents, c).unwrap();
        assert(next.no_duplicates()) by {
            assert forall|a: int, b: int| 0 <= a < next.len() && 0 <= b < next.len() && a != b implies next[a] != next[b] by {
                if a < path.len() && b < path.len() {
                } else if a == path.len() {
                    assert(next[b] == path[b]);
                } else {
                    assert(next[a] == path[a]);
                }
            }
        }
        assert forall|j: int| 0 <= j < next.len() implies has_key(parents, #[trigger] next[j]) by {
            if j < path.len() {
                assert(next[j] == path[j]);
            }
        }
        lemma_walk_on_cycle_reports(parents, x, k, seen, next, p);
    }
}

/// A walk that reports nothing never touches the cycle.
proof fn lemma_quiet_walk_avoids_cycle(
    parents: Seq<(Seq<char>, Option<Seq<char>>)>,
    x: Seq<char>,
    k: nat,
    seen: Set<Seq<char>>,
    path: Seq<Seq<char>>,
    current: Option<Seq<char>>,
)
    requires
        k >= 1,
        ancestor(parents, x, k) == Some(x),
        forall|y: Seq<char>| on_cycle(parents, x, k, y) ==> !seen.contains(y),
        walk_state(parents, path, current),
        forall|j: int| 0 <= j < path.len() ==> !on_cycle(parents, x, k, #[trigger] path[j]),
        walk(parents, seen, path, current).1 is None,
    ensures
        forall|j: int| 0 <= j < walk(parents, seen, path, current).0.len() ==> !on_cycle(parents, x, k, #[trigger] walk(parents, seen, path, current).0[j]),
    decreases parents.len() + 1 - path.len(),
{
    if let Some(y) = current {
        if !path.contains(y) && !seen.contains(y) && path.len() <= parents.len() {
            if on_cycle(parents, x, k, y) {
                lemma_walk_on_cycle_reports(parents, x, k, seen, path, y);
            } else {
                let next = path.push(y);
                let p = parent_of(parents, y);
                assert(next.no_duplicates()) by {
                    assert forall|a: int, b: int| 0 <= a < next.len() && 0 <= b < next.len() && a != b implies next[a] != next[b] by {
                        if a < path.len() && b < path.len() {
                        } else if a == path.len() {
                            assert(next[b] == path[b]);
                        } else {
                            assert(next[a] == path[a]);
                        }
                    }
                }
                if p is Some {
                    lemma_lookup_has_key(parents, y);
                    assert forall|j: int| 0 <= j < next.len() implies has_key(parents, #[trigger] next[j]) by {
                        if j < path.len() {
                            assert(next[j] == path[j]);
                        }
                    }
                }
                assert forall|j: int| 0 <= j < next.len() implies !on_cycle(parents, x, k, #[trigger] next[j]) by {
                    if j < path.len() {
                        assert(next[j] == path[j]);
                    }
                }
                lemma_quiet_walk_avoids_cycle(parents, x, k, seen, next, p);
            }
        }
    }
}

/// Reports stay empty only if no cycle element is among the starts.
proof fn lemma_reports_find_cycle(
    parents: Seq<(Seq<char>, Option<Seq<char>>)>,
    x: Seq<char>,
    k: nat,
    starts: Seq<Seq<char>>,
    seen: Set<Seq<char>>,
)
    requires
        k >= 1,
        ancestor(parents, x, k) == Some(x),
        forall|y: Seq<char>| on_cycle(parents, x, k, y) ==> !seen.contains(y),
        exists|i: int| 0 <= i < starts.len() && on_cycle(parents, x, k, #[trigger] starts[i]),
    ensures
        cycle_reports(parents, starts, seen).len() > 0,
    decreases starts.len(),
{
    broadcast use vstd::set::group_set_axioms;
    let s = starts[0];
    let (path, cycle) = walk(parents, seen, Seq::empty(), Some(s));
    assert(walk_state(parents, Seq::<Seq<char>>::empty(), Some(s)));
    if cycle is None {
        lemma_quiet_walk_avoids_cycle(parents, x, k, seen, Seq::empty(), Some(s));
        let seen2 = seen + path.to_set();
        assert forall|y: Seq<char>| on_cycle(parents, x, k, y) implies !seen2.contains(y) by {
            if path.to_set().contains(y) {
                let j = choose|j: int| 0 <= j < path.len() && path[j] == y;
            }
        }
        let i = choose|i: int| 0 <= i < starts.len() && on_cycle(parents, x, k, #[trigger] starts[i]);
        if i == 0 {
            lemma_walk_on_cycle_reports(parents, x, k, seen, Seq::empty(), s);
        }
        assert(starts.drop_first()[i - 1] == starts[i]);
        lemma_reports_find_cycle(parents, x, k, starts.drop_first(), seen2);
    }
}

/// Validation reports a cycle whenever one exists.
pub proof fn lemma_no_cycle_problems_acyclic(containers: Seq<ContainerView>)
    requires
        cycle_problems(containers).len() == 0,
        exists|s: Seq<Seq<char>>| strictly_increasing(s) && s.to_set() == key_set(parent_pairs(containers)),
    ensures
        acyclic(parent_pairs(containers)),
{
    broadcast use vstd::set::group_set_axioms;
    let parents = parent_pairs(containers);
    let starts = sorted_ids(key_set(parents));
    assert forall|x: Seq<char>, k: nat| k >= 1 implies #[trigger] ancestor(parents, x, k) != Some(x) by {
        if ancestor(parents, x, k) == Some(x) {
            assert(on_cycle(parents, x, k, x)) by {
                assert(ancestor(parents, x, 0) == Some(x));
            }
            lemma_cycle_closed(parents, x, k, x);
            assert(key_set(parents).contains(x));
            assert(starts.to_set().contains(x));
            let i = choose|i: int| 0 <= i < starts.len() && starts[i] == x;
            lemma_reports_find_cycle(parents, x, k, starts, Set::empty());
        }
    }
}

/// In an acyclic parent relation every chain of parents ends within as many
/// steps as there are entries.
pub proof fn lemma_acyclic_chain_ends(parents: Seq<(Seq<char>, Option<Seq<char>>)>, x: Seq<char>)
    requires
        acyclic(parents),
    ensures
        ancestor(parents, x, parents.len() + 1) is None,
{
    if ancestor(parents, x, parents.len() + 1) is Some {
        let n = parents.len();
        // The ids x = a0, a1, ..., an all have parents, so they are keys.
        let chain = Seq::new(n + 1, |i: int| ancestor(parents, x, i as nat).unwrap());
        assert forall|j: int| 0 <= j < chain.len() implies has_key(parents, #[trigger] chain[j]) by {
            lemma_ancestor_some_below(parents, x, (j + 1) as nat, n + 1);
            lemma_ancestor_some_below(parents, x, j as nat, n + 1);
            assert(ancestor(parents, x, (j + 1) as nat) == parent_of(parents, chain[j]));
            lemma_lookup_has_key(parents, chain[j]);
        }
        if chain.no_duplicates() {
            lemma_distinct_keys_bound(chain, parents);
        } else {
            let (a, b) = choose|a: int, b: int| 0 <= a < chain.len() && 0 <= b < chain.len() && a != b && chain[a] == chain[b];
            let (lo, hi) = if a < b { (a, b) } else { (b, a) };
            lemma_ancestor_some_below(parents, x, lo as nat, n + 1);
            lemma_ancestor_some_below(parents, x, hi as nat, n + 1);
            lemma_ancestor_add(parents, x, lo as nat, (hi - lo) as nat);
            assert((lo + (hi - lo)) as nat == hi as nat);
            assert(ancestor(parents, chain[lo], (hi - lo) as nat) == Some(chain[lo]));
        }
    }
}


/// `t` with `k` inserted in order, if it is not there yet.
pub open spec fn insert_sorted(t: Seq<Seq<char>>, k: Seq<char>) -> Seq<Seq<char>>
    decreases t.len(),
{
    if t.len() == 0 {
        seq![k]
    } else if t[0] == k {
        t
    } else if lex_lt(k, t[0]) {
        seq![k] + t
    } else {
        seq![t[0]] + insert_sorted(t.drop_first(), k)
    }
}

proof fn lemma_insert_sorted(t: Seq<Seq<char>>, k: Seq<char>)
    requires
        strictly_increasing(t),
    ensures
        strictly_increasing(insert_sorted(t, k)),
        insert_sorted(t, k).to_set() == t.to_set().insert(k),
        forall|y: Seq<char>| #[trigger] insert_sorted(t, k).contains(y) ==> y == k || t.contains(y),
    decreases t.len(),
{
    broadcast use vstd::set::group_set_axioms;
    let r = insert_sorted(t, k);
    if t.len() == 0 {
        assert(r.to_set() =~= t.to_set().insert(k)) by {
            assert forall|y: Seq<char>| r.to_set().contains(y) <==> t.to_set().insert(k).contains(y) by {
                if y == k {
                    assert(r[0] == k);
                }
            }
        }
    } else if t[0] == k {
        assert(r.to_set() =~= t.to_set().insert(k)) by {
            assert(t.to_set().contains(t[0]));
        }
    } else if lex_lt(k, t[0]) {
        assert forall|a: int, b: int| 0 <= a < b < r.len() implies lex_lt(#[trigger] r[a], #[trigger] r[b]) by {
            if a == 0 {
                assert(r[b] == t[b - 1]);
                if b - 1 > 0 {
                    lemma_lex_transitive(k, t[0], t[b - 1]);
                }
            } else {
                assert(r[a] == t[a - 1] && r[b] == t[b - 1]);
            }
        }
        assert(r.to_set() =~= t.to_set().insert(k)) by {
            assert forall|y: Seq<char>| r.to_set().contains(y) <==> t.to_set().insert(k).contains(y) by {
                if r.contains(y) {
                    let j = choose|j: int| 0 <= j < r.len() && r[j] == y;
                    if j > 0 {
                        assert(t[j - 1] == y);
                    }
                }
                if t.contains(y) {
                    let j = choose|j: int| 0 <= j < t.len() && t[j] == y;
                    assert(r[j + 1] == y);
                }
                if y == k {
                    assert(r[0] == k);
                }
            }
        }
    } else {
        let rest = t.drop_first();
        assert(strictly_increasing(rest)) by {
            assert forall|a: int, b: int| 0 <= a < b < rest.len() implies lex_lt(#[trigger] rest[a], #[trigger] rest[b]) by {
                assert(rest[a] == t[a + 1] && rest[b] == t[b + 1]);
            }
        }
        lemma_insert_sorted(rest, k);
        let tail = insert_sorted(rest, k);
        lemma_lex_total(k, t[0]);
        assert forall|a: int, b: int| 0 <= a < b < r.len() implies lex_lt(#[trigger] r[a], #[trigger] r[b]) by {
            if a == 0 {
                assert(r[b] == tail[b - 1]);
                assert(tail.contains(tail[b - 1]));
                if tail[b - 1] != k {
                    let j = choose|j: int| 0 <= j < t.len() - 1 && rest[j] == tail[b - 1];
                    assert(t[j + 1] == rest[j]);
                }
            } else {
                assert(r[a] == tail[a - 1] && r[b] == tail[b - 1]);
            }
        }
        assert(r.to_set() =~= t.to_set().insert(k)) by {
            assert forall|y: Seq<char>| r.to_set().contains(y) <==> t.to_set().insert(k).contains(y) by {
                if r.contains(y) {
                    let j = choose|j: int| 0 <= j < r.len() && r[j] == y;
                    if j == 0 {
                        assert(t[0] == y);
                    } else {
                        assert(tail[j - 1] == y);
                        assert(tail.to_set().contains(y));
                        if y != k {
                            assert(rest.to_set().contains(y));
                            let m = choose|m: int| 0 <= m < rest.len() && rest[m] == y;
                            assert(t[m + 1] == y);
                        }
                    }
                }
                if t.contains(y) {
                    let j = choose|j: int| 0 <= j < t.len() && t[j] == y;
                    if j == 0 {
                        assert(r[0] == y);
                    } else {
                        assert(rest[j - 1] == y);
                        assert(rest.to_set().contains(y));
                        assert(tail.to_set().contains(y));
                        let m = choose|m: int| 0 <= m < tail.len() && tail[m] == y;
                        assert(r[m + 1] == y);
                    }
                }
                if y == k {
                    assert(tail.to_set().contains(k));
                    let m = choose|m: int| 0 <= m < tail.len() && tail[m] == k;
                    assert(r[m + 1] == k);
                }
            }
        }
        assert forall|y: Seq<char>| #[trigger] r.contains(y) implies y == k || t.contains(y) by {
            assert(r.to_set().contains(y));
        }
    }
}

/// The keys of `s`, in increasing order.
pub open spec fn sorted_keys<V>(s: Seq<(Seq<char>, V)>) -> Seq<Seq<char>>
    decreases s.len(),
{
    if s.len() == 0 {
        Seq::empty()
    } else {
        insert_sorted(sorted_keys(s.drop_last()), s.last().0)
    }
}

/// Every finite set of keys can be listed in increasing order.
pub proof fn lemma_sorted_keys_exist<V>(s: Seq<(Seq<char>, V)>)
    ensures
        strictly_increasing(sorted_keys(s)),
        sorted_keys(s).to_set() == key_set(s),
    decreases s.len(),
{
    broadcast use vstd::set::group_set_axioms;
    if s.len() == 0 {
        assert(sorted_keys(s).to_set() =~= key_set(s));
    } else {
        lemma_sorted_keys_exist(s.drop_last());
        lemma_insert_sorted(sorted_keys(s.drop_last()), s.last().0);
        assert(sorted_keys(s).to_set() =~= key_set(s)) by {
            assert forall|y: Seq<char>| key_set(s).contains(y) <==> key_set(s.drop_last()).insert(s.last().0).contains(y) by {
                if has_key(s, y) {
                    let i = choose|i: int| 0 <= i < s.len() && #[trigger] s[i].0 == y;
                    if i < s.len() - 1 {
                        assert(s.drop_last()[i].0 == y);
                    }
                }
                if has_key(s.drop_last(), y) {
                    let i = choose|i: int| 0 <= i < s.drop_last().len() && #[trigger] s.drop_last()[i].0 == y;
                    assert(s[i].0 == y);
                }
                if y == s.last().0 {
                    assert(s[s.len() - 1].0 == y);
                }
            }
        }
    }
}

/// A design that validates has no container parent cycle: no container is its own ancestor.
pub proof fn law_valid_design_is_acyclic(d: DesignView)
    requires
        spec_is_valid(d),
    ensures
        acyclic(parent_pairs(d.containers)),
{
    lemma_sorted_keys_exist(parent_pairs(d.containers));
    lemma_no_cycle_problems_acyclic(d.containers);
}

} // verus!
