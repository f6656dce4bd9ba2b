//! General properties of the counter, stated over its mathematical model
//! and proved once for all inputs.
//!
//! Each law speaks of the maps and rankings that the counter's own contracts
//! produce: a caller holding the `ensures` of `init`, `update`,
//! `most_common` or a combination operator can instantiate these lemmas
//! directly.

use vstd::prelude::*;

use crate::count_in;
use crate::is_intersection_of;
use crate::is_ranking_of;
use crate::is_sum_of;
use crate::is_union_of;
use crate::lemma_precedes_total;
use crate::lemma_precedes_transitive;
use crate::order::Element;
use crate::precedes;
use vstd::multiset::Multiset;
use vstd::relations::sorted_by;
use vstd::relations::total_ordering;

verus! {

/// The total of the counts a ranking lists.
pub open spec fn total_pairs<T>(r: Seq<(T, usize)>) -> nat
    decreases r.len(),
{
    if r.len() == 0 {
        0
    } else {
        total_pairs(r.drop_last()) + r.last().1 as nat
    }
}

/// Setting an element's multiplicity to zero shrinks a multiset by exactly
/// that element's count.
proof fn lemma_drain<T>(m: Multiset<T>, x: T)
    ensures
        m.update(x, 0).len() == m.len() - m.count(x),
    decreases m.count(x),
{
    broadcast use vstd::multiset::group_multiset_properties;

    if m.count(x) == 0 {
        assert(m.update(x, 0) =~= m);
    } else {
        let m2 = m.remove(x);
        assert(Multiset::singleton(x).subset_of(m));
        assert(m2.len() == m.len() - 1);
        assert(m2.count(x) == m.count(x) - 1);
        lemma_drain(m2, x);
        assert(m2.update(x, 0) =~= m.update(x, 0));
    }
}

/// A list of pairwise distinct elements, each paired with its count in a
/// multiset and jointly covering everything the multiset holds, totals the
/// multiset's size.
proof fn lemma_pairs_total<T>(r: Seq<(T, usize)>, m: Multiset<T>)
    requires
        forall|i: int, j: int|
            0 <= i < j < r.len() ==> (#[trigger] r[i]).0 != (#[trigger] r[j]).0,
        forall|i: int| 0 <= i < r.len() ==> (#[trigger] r[i]).1 == m.count((r[i]).0),
        forall|x: T|
            m.count(x) > 0 ==> exists|i: int| 0 <= i < r.len() && (#[trigger] r[i]).0 == x,
    ensures
        total_pairs(r) == m.len(),
    decreases r.len(),
{
    broadcast use vstd::multiset::group_multiset_properties;

    if r.len() == 0 {
        vstd::multiset::lemma_multiset_empty_len(m);
        if m.len() > 0 {
            let x = choose|x: T| 0 < m.count(x);
            assert(exists|i: int| 0 <= i < r.len() && (#[trigger] r[i]).0 == x);
            assert(false);
        }
    } else {
        let x = r.last().0;
        let c = m.count(x);
        assert((r[r.len() - 1]).1 == c);
        let m2 = m.update(x, 0);
        lemma_drain(m, x);
        let r2 = r.drop_last();
        assert forall|i: int| 0 <= i < r2.len() implies (#[trigger] r2[i]).1 == m2.count(
            (r2[i]).0,
        ) by {
            assert(r2[i] == r[i]);
            assert((r[i]).0 != x);
        }
        assert forall|y: T| m2.count(y) > 0 implies exists|i: int|
            0 <= i < r2.len() && (#[trigger] r2[i]).0 == y by {
            assert(y != x);
            assert(m.count(y) > 0);
            let i = choose|i: int| 0 <= i < r.len() && (#[trigger] r[i]).0 == y;
            assert(i < r.len() - 1);
            assert(r2[i] == r[i]);
        }
        lemma_pairs_total(r2, m2);
    }
}

/// Nothing is lost or invented in tallying and ranking: a ranking of the
/// tally of a sequence lists counts that total exactly the sequence's
/// length.
pub proof fn lemma_ranking_counts_total<T: Element>(s: Seq<T>, m: Map<T, nat>, r: Seq<(T, usize)>)
    requires
        forall|x: T| #[trigger] count_in(m, x) == s.to_multiset().count(x),
        is_ranking_of(r, m),
    ensures
        total_pairs(r) == s.len(),
{
    broadcast use vstd::seq_lib::group_to_multiset_ensures;

    let ms = s.to_multiset();
    assert(ms.len() == s.len());
    assert forall|i: int| 0 <= i < r.len() implies (#[trigger] r[i]).1 == ms.count((r[i]).0) by {
        assert(count_in(m, (r[i]).0) == (r[i]).1 as nat);
    }
    assert forall|x: T| ms.count(x) > 0 implies exists|i: int|
        0 <= i < r.len() && (#[trigger] r[i]).0 == x by {
        assert(count_in(m, x) > 0);
        assert(m.dom().contains(x));
    }
    lemma_pairs_total(r, ms);
}

/// An element that never occurs in the tallied sequence is absent from the
/// tally: its count is zero and it is no key of the tally's map.
pub proof fn lemma_absent_element_not_counted<T>(s: Seq<T>, m: Map<T, nat>, x: T)
    requires
        forall|y: T| #[trigger] count_in(m, y) == s.to_multiset().count(y),
        forall|y: T| #[trigger] m.dom().contains(y) <==> s.contains(y),
        !s.contains(x),
    ensures
        count_in(m, x) == 0,
        !m.dom().contains(x),
{
    broadcast use vstd::seq_lib::group_to_multiset_ensures;

    assert(s.to_multiset().count(x) == 0);
}

/// In a ranking of `m`, a pair occurs exactly once when it couples a key of
/// `m` with that key's count, and never otherwise.
proof fn lemma_ranking_multiset<T: Element>(m: Map<T, nat>, r: Seq<(T, usize)>)
    requires
        is_ranking_of(r, m),
    ensures
        forall|p: (T, usize)|
            #[trigger] r.to_multiset().count(p) == (if m.dom().contains(p.0) && m[p.0]
                == p.1 as nat {
                1nat
            } else {
                0nat
            }),
{
    broadcast use vstd::seq_lib::group_to_multiset_ensures;

    assert(r.no_duplicates()) by {
        assert forall|i: int, j: int|
            0 <= i < r.len() && 0 <= j < r.len() && i != j implies r[i] != r[j] by {
            if i < j {
                assert((r[i]).0 != (r[j]).0);
            } else {
                assert((r[j]).0 != (r[i]).0);
            }
        }
    }
    r.lemma_multiset_has_no_duplicates();
    assert forall|p: (T, usize)|
        #[trigger] r.to_multiset().count(p) == (if m.dom().contains(p.0) && m[p.0] == p.1 as nat {
            1nat
        } else {
            0nat
        }) by {
        if m.dom().contains(p.0) && m[p.0] == p.1 as nat {
            let i = choose|i: int| 0 <= i < r.len() && (#[trigger] r[i]).0 == p.0;
            assert((r[i]).1 as nat == m[p.0]);
            assert(r[i] == p);
            assert(r.contains(p));
            assert(r.to_multiset().count(p) > 0);
        } else {
            if r.to_multiset().count(p) > 0 {
                assert(r.contains(p));
                let i = choose|i: int| 0 <= i < r.len() && r[i] == p;
                assert(m.dom().contains(p.0) && m[p.0] == p.1 as nat);
            }
        }
    }
}

/// Ranking is deterministic: two rankings of one tally are equal, pair for
/// pair, so asking an unchanged counter twice for its most common elements
/// yields the same answer.
pub proof fn lemma_ranking_unique<T: Element>(
    m: Map<T, nat>,
    r1: Seq<(T, usize)>,
    r2: Seq<(T, usize)>,
)
    requires
        is_ranking_of(r1, m),
        is_ranking_of(r2, m),
    ensures
        r1 == r2,
{
    lemma_ranking_multiset(m, r1);
    lemma_ranking_multiset(m, r2);
    assert(r1.to_multiset() =~= r2.to_multiset());
    let leq = |p: (T, usize), q: (T, usize)| precedes(p, q);
    assert(total_ordering(leq)) by {
        assert forall|p: (T, usize)| #[trigger] leq(p, p) by {
            T::lemma_le_reflexive(p.0);
        }
        assert forall|p: (T, usize), q: (T, usize)| #[trigger] leq(p, q) && #[trigger] leq(
            q,
            p,
        ) implies p == q by {
            T::lemma_le_antisymmetric(p.0, q.0);
        }
        assert forall|p: (T, usize), q: (T, usize), s: (T, usize)|
            #[trigger] leq(p, q) && #[trigger] leq(q, s) implies leq(p, s) by {
            lemma_precedes_transitive::<T>(p, q, s);
        }
        assert forall|p: (T, usize), q: (T, usize)| #[trigger] leq(p, q) || #[trigger] leq(
            q,
            p,
        ) by {
            lemma_precedes_total::<T>(p, q);
        }
    }
    assert(sorted_by(r1, leq));
    assert(sorted_by(r2, leq));
    vstd::seq_lib::lemma_sorted_unique(r1, r2, leq);
    assert(r1 =~= r2);
}

/// Summing counters is commutative: the sum of `a` and `b` and the sum of
/// `b` and `a` are the same tally.
pub proof fn lemma_sum_commutative<T>(
    a: Map<T, nat>,
    b: Map<T, nat>,
    r1: Map<T, nat>,
    r2: Map<T, nat>,
)
    requires
        is_sum_of(r1, a, b),
        is_sum_of(r2, b, a),
    ensures
        r1 == r2,
{
    assert(r1.dom() =~= r2.dom());
    assert forall|x: T| r1.dom().contains(x) implies r1[x] == r2[x] by {
        assert(count_in(r1, x) == count_in(r2, x));
    }
    assert(r1 =~= r2);
}

/// Intersecting counters is commutative.
pub proof fn lemma_intersection_commutative<T>(
    a: Map<T, nat>,
    b: Map<T, nat>,
    r1: Map<T, nat>,
    r2: Map<T, nat>,
)
    requires
        is_intersection_of(r1, a, b),
        is_intersection_of(r2, b, a),
    ensures
        r1 == r2,
{
    assert(r1.dom() =~= r2.dom());
    assert forall|x: T| r1.dom().contains(x) implies r1[x] == r2[x] by {
        assert(count_in(r1, x) == count_in(r2, x));
    }
    assert(r1 =~= r2);
}

/// Taking the union of counters is commutative.
pub proof fn lemma_union_commutative<T>(
    a: Map<T, nat>,
    b: Map<T, nat>,
    r1: Map<T, nat>,
    r2: Map<T, nat>,
)
    requires
        is_union_of(r1, a, b),
        is_union_of(r2, b, a),
    ensures
        r1 == r2,
{
    assert(r1.dom() =~= r2.dom());
    assert forall|x: T| r1.dom().contains(x) implies r1[x] == r2[x] by {
        assert(count_in(r1, x) == count_in(r2, x));
    }
    assert(r1 =~= r2);
}

/// Updating twice with one sequence doubles each element's contribution
/// relative to a single update.
pub proof fn lemma_update_twice_doubles<T>(
    m0: Map<T, nat>,
    m1: Map<T, nat>,
    m2: Map<T, nat>,
    s: Seq<T>,
)
    requires
        forall|x: T| #[trigger] count_in(m1, x) == count_in(m0, x) + s.to_multiset().count(x),
        forall|x: T| #[trigger] count_in(m2, x) == count_in(m1, x) + s.to_multiset().count(x),
    ensures
        forall|x: T| #[trigger] count_in(m2, x) == count_in(m0, x) + 2 * s.to_multiset().count(x),
{
}

} // verus!
