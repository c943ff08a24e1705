//! Stable ordering of records by id.

use vstd::prelude::*;

use crate::text::{
    chars_of, compare_chars, lemma_lex_asymmetric, lemma_lex_irreflexive, lemma_lex_total,
    lemma_lex_transitive, lex_lt, Comparison,
};

verus! {

/// Position `i` comes before position `j`: by id, and by position among equal ids.
pub open spec fn id_before(ids: Seq<Seq<char>>, i: int, j: int) -> bool {
    lex_lt(ids[i], ids[j]) || (ids[i] == ids[j] && i < j)
}

/// `order` lists every position of `ids` once, sorted by id, keeping the
/// original order among equal ids: what a stable sort by id produces.
pub open spec fn is_id_order(ids: Seq<Seq<char>>, order: Seq<usize>) -> bool {
    &&& order.len() == ids.len()
    &&& forall|k: int| 0 <= k < order.len() ==> #[trigger] order[k] < ids.len()
    &&& forall|a: int, b: int| 0 <= a < b < order.len() ==> id_before(ids, #[trigger] order[a] as int, #[trigger] order[b] as int)
    &&& forall|i: usize| i < ids.len() ==> #[trigger] order.contains(i)
}

/// The stable id order of `ids`.
pub open spec fn spec_id_order(ids: Seq<Seq<char>>) -> Seq<usize> {
    choose|order: Seq<usize>| is_id_order(ids, order)
}

proof fn lemma_before_asymmetric(ids: Seq<Seq<char>>, i: int, j: int)
    requires
        id_before(ids, i, j),
    ensures
        !id_before(ids, j, i),
        i != j,
{
    if lex_lt(ids[i], ids[j]) {
        lemma_lex_asymmetric(ids[i], ids[j]);
    } else {
        lemma_lex_irreflexive(ids[i]);
    }
}

/// There is one stable id order, so `id_order` computes `spec_id_order`.
pub proof fn lemma_id_order_unique(ids: Seq<Seq<char>>, a: Seq<usize>, b: Seq<usize>)
    requires
        is_id_order(ids, a),
        is_id_order(ids, b),
    ensures
        a == b,
{
    lemma_sorted_indices_unique(ids, a, b);
}

proof fn lemma_sorted_indices_unique(ids: Seq<Seq<char>>, a: Seq<usize>, b: Seq<usize>)
    requires
        forall|x: int, y: int| 0 <= x < y < a.len() ==> id_before(ids, #[trigger] a[x] as int, #[trigger] a[y] as int),
        forall|x: int, y: int| 0 <= x < y < b.len() ==> id_before(ids, #[trigger] b[x] as int, #[trigger] b[y] as int),
        forall|v: usize| #![trigger a.contains(v)] #![trigger b.contains(v)] a.contains(v) <==> b.contains(v),
    ensures
        a == b,
    decreases a.len(),
{
    if a.len() == 0 {
        if b.len() > 0 {
            assert(b.contains(b[0]));
        }
        assert(a =~= b);
    } else if b.len() == 0 {
        assert(a.contains(a[0]));
    } else {
        assert(a.contains(a[0]));
        assert(b.contains(b[0]));
        let i = choose|i: int| 0 <= i < b.len() && b[i] == a[0];
        let j = choose|j: int| 0 <= j < a.len() && a[j] == b[0];
        if i > 0 && j > 0 {
            assert(id_before(ids, b[0] as int, b[i] as int));
            assert(id_before(ids, a[0] as int, a[j] as int));
            lemma_before_asymmetric(ids, a[0] as int, a[j] as int);
        }
        if i > 0 && j == 0 {
            lemma_before_asymmetric(ids, b[0] as int, b[i] as int);
        }
        if j > 0 && i == 0 {
            lemma_before_asymmetric(ids, a[0] as int, a[j] as int);
        }
        assert(a[0] == b[0]);
        let ra = a.drop_first();
        let rb = b.drop_first();
        assert forall|v: usize| #![trigger ra.contains(v)] #![trigger rb.contains(v)] ra.contains(v) <==> rb.contains(v) by {
            if ra.contains(v) {
                let k = choose|k: int| 0 <= k < ra.len() && ra[k] == v;
                assert(a[k + 1] == v);
                lemma_before_asymmetric(ids, a[0] as int, v as int);
                assert(a.contains(v));
                assert(b.contains(v));
                let l = choose|l: int| 0 <= l < b.len() && b[l] == v;
                assert(l != 0);
                assert(rb[l - 1] == v);
            }
            if rb.contains(v) {
                let k = choose|k: int| 0 <= k < rb.len() && rb[k] == v;
                assert(b[k + 1] == v);
                lemma_before_asymmetric(ids, b[0] as int, v as int);
                assert(b.contains(v));
                assert(a.contains(v));
                let l = choose|l: int| 0 <= l < a.len() && a[l] == v;
                assert(l != 0);
                assert(ra[l - 1] == v);
            }
        }
        assert forall|x: int, y: int| 0 <= x < y < ra.len() implies id_before(ids, #[trigger] ra[x] as int, #[trigger] ra[y] as int) by {
            assert(ra[x] == a[x + 1] && ra[y] == a[y + 1]);
        }
        assert forall|x: int, y: int| 0 <= x < y < rb.len() implies id_before(ids, #[trigger] rb[x] as int, #[trigger] rb[y] as int) by {
            assert(rb[x] == b[x + 1] && rb[y] == b[y + 1]);
        }
        lemma_sorted_indices_unique(ids, ra, rb);
        assert(a =~= seq![a[0]] + ra);
        assert(b =~= seq![b[0]] + rb);
    }
}

/// The first place at or after `a` in `order` whose id comes after `x`, or
/// the end: where a stable sort puts a new position with id `x`.
pub open spec fn insertion_point(ids: Seq<Seq<char>>, order: Seq<usize>, x: Seq<char>, a: int) -> int
    decreases order.len() - a,
{
    if a >= order.len() {
        order.len() as int
    } else if lex_lt(x, ids[order[a] as int]) {
        a
    } else {
        insertion_point(ids, order, x, a + 1)
    }
}

proof fn lemma_insertion_point(ids: Seq<Seq<char>>, order: Seq<usize>, x: Seq<char>, a: int)
    requires
        0 <= a <= order.len(),
    ensures
        a <= insertion_point(ids, order, x, a) <= order.len(),
        forall|b: int| a <= b < insertion_point(ids, order, x, a) ==> !lex_lt(x, ids[#[trigger] order[b] as int]),
        insertion_point(ids, order, x, a) < order.len() ==> lex_lt(x, ids[order[insertion_point(ids, order, x, a)] as int]),
    decreases order.len() - a,
{
    if a < order.len() && !lex_lt(x, ids[order[a] as int]) {
        lemma_insertion_point(ids, order, x, a + 1);
    }
}

/// Every id listing short enough to be indexed has a stable id order.
pub proof fn lemma_id_order_exists(ids: Seq<Seq<char>>)
    requires
        ids.len() <= usize::MAX,
    ensures
        is_id_order(ids, spec_id_order(ids)),
    decreases ids.len(),
{
    if ids.len() == 0 {
        let none = Seq::<usize>::empty();
        assert(is_id_order(ids, none));
    } else {
        let k = (ids.len() - 1) as usize;
        let prefix = ids.drop_last();
        lemma_id_order_exists(prefix);
        let before = spec_id_order(prefix);
        let x = ids[k as int];
        lemma_insertion_point(prefix, before, x, 0);
        let lo = insertion_point(prefix, before, x, 0);
        let after = before.insert(lo, k);
        assert forall|a: int| lo <= a < before.len() implies lex_lt(x, ids[#[trigger] before[a] as int]) by {
            let first = before[lo] as int;
            assert(lex_lt(x, prefix[first]));
            if a > lo {
                assert(id_before(prefix, first, before[a] as int));
                if prefix[first] != prefix[before[a] as int] {
                    lemma_lex_transitive(x, prefix[first], prefix[before[a] as int]);
                }
            }
        }
        assert forall|a: int| 0 <= a < lo implies !lex_lt(x, ids[#[trigger] before[a] as int]) by {
            assert(!lex_lt(x, prefix[before[a] as int]));
        }
        assert forall|a: int, b: int| 0 <= a < b < after.len() implies id_before(ids, #[trigger] after[a] as int, #[trigger] after[b] as int) by {
            if b < lo {
                assert(id_before(prefix, before[a] as int, before[b] as int));
            } else if b == lo {
                let i = before[a] as int;
                assert(!lex_lt(x, ids[i]));
                lemma_lex_total(ids[i], x);
            } else if a < lo {
                assert(id_before(prefix, before[a] as int, before[b - 1] as int));
            } else if a == lo {
                assert(lex_lt(x, ids[before[b - 1] as int]));
            } else {
                assert(id_before(prefix, before[a - 1] as int, before[b - 1] as int));
            }
        }
        assert forall|i: usize| i < ids.len() implies #[trigger] after.contains(i) by {
            if i == k {
                assert(after[lo] == k);
            } else {
                assert(before.contains(i));
                let c = choose|c: int| 0 <= c < before.len() && before[c] == i;
                if c < lo {
                    assert(after[c] == i);
                } else {
                    assert(after[c + 1] == i);
                }
            }
        }
        assert(is_id_order(ids, after));
    }
}

/// Positions of `ids` in stable id order.
pub fn id_order(ids: &Vec<String>) -> (order: Vec<usize>)
    ensures
        is_id_order(ids.deep_view(), order@),
        order@ == spec_id_order(ids.deep_view()),
{
    let ghost v = ids.deep_view();
    let mut keys: Vec<Vec<char>> = Vec::new();
    for i in 0..ids.len()
        invariant
            v == ids.deep_view(),
            keys.len() == i,
            forall|j: int| 0 <= j < i ==> #[trigger] keys@[j]@ == v[j],
    {
        keys.push(chars_of(ids[i].as_str()));
    }
    let mut order: Vec<usize> = Vec::new();
    for k in 0..ids.len()
        invariant
            v == ids.deep_view(),
            keys.len() == v.len(),
            forall|j: int| 0 <= j < v.len() ==> #[trigger] keys@[j]@ == v[j],
            is_id_order(v.take(k as int), order@),
    {
        let ghost prefix = v.take(k as int);
        let ghost before = order@;
        // The first position whose id orders after the new id.
        let mut lo: usize = 0;
        let mut hi: usize = order.len();
        while lo < hi
            invariant
                lo <= hi <= order.len(),
                order@ == before,
                k < v.len(),
                keys.len() == v.len(),
                forall|j: int| 0 <= j < v.len() ==> #[trigger] keys@[j]@ == v[j],
                is_id_order(prefix, before),
                prefix == v.take(k as int),
                forall|a: int| 0 <= a < lo ==> !lex_lt(v[k as int], v[#[trigger] before[a] as int]),
                forall|a: int| hi <= a < before.len() ==> lex_lt(v[k as int], v[#[trigger] before[a] as int]),
            decreases hi - lo,
        {
            let mid = lo + (hi - lo) / 2;
            let probe = order[mid];
            proof {
                assert(before[mid as int] < k);
                assert(prefix[probe as int] == v[probe as int]);
            }
            if compare_chars(&keys[k], &keys[probe]) == Comparison::Before {
                proof {
                    assert forall|a: int| mid <= a < before.len() implies lex_lt(v[k as int], v[#[trigger] before[a] as int]) by {
                        if a > mid {
                            assert(id_before(prefix, before[mid as int] as int, before[a] as int));
                            assert(prefix[before[a] as int] == v[before[a] as int]);
                            if v[probe as int] != v[before[a] as int] {
                                lemma_lex_transitive(v[k as int], v[probe as int], v[before[a] as int]);
                            }
                        }
                    }
                }
                hi = mid;
            } else {
                proof {
                    lemma_lex_irreflexive(v[k as int]);
                    assert(!lex_lt(v[k as int], v[probe as int]));
                    assert forall|a: int| 0 <= a < mid + 1 implies !lex_lt(v[k as int], v[#[trigger] before[a] as int]) by {
                        if a < mid {
                            assert(id_before(prefix, before[a] as int, before[mid as int] as int));
                            assert(prefix[before[a] as int] == v[before[a] as int]);
                            if lex_lt(v[k as int], v[before[a] as int]) {
                                if v[before[a] as int] == v[probe as int] {
                                } else {
                                    lemma_lex_transitive(v[k as int], v[before[a] as int], v[probe as int]);
                                }
                            }
                        }
                    }
                }
                lo = mid + 1;
            }
        }
        order.insert(lo, k);
        proof {
            let after = order@;
            let next = v.take(k + 1);
            assert(after =~= before.insert(lo as int, k));
            assert forall|a: int, b: int| 0 <= a < b < after.len() implies id_before(next, #[trigger] after[a] as int, #[trigger] after[b] as int) by {
                if b < lo {
                    assert(id_before(prefix, before[a] as int, before[b] as int));
                } else if b == lo {
                    let i = before[a] as int;
                    assert(!lex_lt(v[k as int], v[i]));
                    lemma_lex_total(v[i], v[k as int]);
                } else if a < lo {
                    let i = before[a] as int;
                    let j = before[b - 1] as int;
                    assert(id_before(prefix, i, j));
                } else if a == lo {
                    let j = before[b - 1] as int;
                    assert(lex_lt(v[k as int], v[j]));
                } else {
                    assert(id_before(prefix, before[a - 1] as int, before[b - 1] as int));
                }
            }
            assert forall|i: usize| i < next.len() implies #[trigger] after.contains(i) by {
                if i == k {
                    assert(after[lo as int] == k);
                } else {
                    assert(before.contains(i));
                    let c = choose|c: int| 0 <= c < before.len() && before[c] == i;
                    if c < lo {
                        assert(after[c] == i);
                    } else {
                        assert(after[c + 1] == i);
                    }
                }
            }
        }
    }
    proof {
        assert(v.take(v.len() as int) =~= v);
        lemma_id_order_unique(v, order@, spec_id_order(v));
    }
    order
}

} // verus!
