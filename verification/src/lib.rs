//! A counter of recurring elements, in the manner of Python's
//! `collections.Counter`.
//!
//! A [`Counter`] tallies how often each distinct element occurs in the
//! sequences handed to it, and offers set-algebra-like combinations of two
//! tallies — sum, difference, intersection by minimum, union by maximum —
//! together with a ranked view of its entries by descending count.
//!
//! The counter stores owned copies of its elements (the element types are
//! `Copy`), and its mathematical model is the finite map from element to
//! count, available as the view `self@` of type `Map<T, nat>`.
//!
//! `subtract` clamps every decrement at zero: counts are unsigned and never
//! go negative, so removing more occurrences than are present leaves a count
//! of zero behind.

use vstd::prelude::*;

pub mod laws;
pub mod order;

use crate::order::Cmp;
use crate::order::Element;
use vstd::pervasive::VecAdditionalExecFns;

verus! {

/// A tally of how often each element occurs: a finite map from element to
/// occurrence count, modelled by the view `self@: Map<T, nat>`.
///
/// The entries are kept as a vector of `(element, count)` pairs whose keys
/// are pairwise distinct; that well-formedness is a type invariant, so every
/// `Counter` value satisfies it and callers never have to state it.
pub struct Counter<T> {
    entries: Vec<(T, usize)>,
}

/// The count recorded for `x` in the model map `m`: the mapped value when
/// `x` is a key, and zero when it is absent.
pub open spec fn count_in<T>(m: Map<T, nat>, x: T) -> nat {
    if m.dom().contains(x) {
        m[x]
    } else {
        0
    }
}

/// The map that a sequence of `(element, count)` pairs denotes, later pairs
/// winning; with pairwise distinct keys, exactly the association the
/// sequence spells out.
spec fn map_of<T>(s: Seq<(T, usize)>) -> Map<T, nat>
    decreases s.len(),
{
    if s.len() == 0 {
        Map::empty()
    } else {
        map_of(s.drop_last()).insert(s.last().0, s.last().1 as nat)
    }
}

/// The keys of a pair sequence are pairwise distinct.
spec fn distinct_keys<T>(s: Seq<(T, usize)>) -> bool {
    forall|i: int, j: int|
        0 <= i < j < s.len() ==> (#[trigger] s[i]).0 != (#[trigger] s[j]).0
}

/// A key is in the domain of `map_of(s)` exactly when some pair of `s`
/// carries it.
proof fn lemma_map_of_dom<T>(s: Seq<(T, usize)>)
    ensures
        forall|x: T|
            #[trigger] map_of(s).dom().contains(x) <==> exists|i: int|
                0 <= i < s.len() && (#[trigger] s[i]).0 == x,
    decreases s.len(),
{
    if s.len() > 0 {
        let dl = s.drop_last();
        lemma_map_of_dom(dl);
        assert(map_of(s) == map_of(dl).insert(s.last().0, s.last().1 as nat));
        assert forall|x: T| #[trigger] map_of(s).dom().contains(x) implies exists|i: int|
            0 <= i < s.len() && (#[trigger] s[i]).0 == x by {
            if x == s.last().0 {
                assert((s[s.len() - 1]).0 == x);
            } else {
                assert(map_of(dl).dom().contains(x));
                let i = choose|i: int| 0 <= i < dl.len() && (#[trigger] dl[i]).0 == x;
                assert(dl[i] == s[i]);
                assert((s[i]).0 == x);
            }
        }
        assert forall|x: T|
            exists|i: int| 0 <= i < s.len() && (#[trigger] s[i]).0 == x implies #[trigger] map_of(
            s,
        ).dom().contains(x) by {
            let i = choose|i: int| 0 <= i < s.len() && (#[trigger] s[i]).0 == x;
            if i == s.len() - 1 {
                assert(s.last().0 == x);
            } else {
                assert((dl[i]).0 == x);
                assert(map_of(dl).dom().contains(x));
            }
        }
    }
}

/// With pairwise distinct keys, `map_of(s)` maps each pair's key to that
/// pair's count.
proof fn lemma_map_of_index<T>(s: Seq<(T, usize)>)
    requires
        distinct_keys(s),
    ensures
        forall|i: int|
            0 <= i < s.len() ==> map_of(s).dom().contains((#[trigger] s[i]).0) && map_of(s)[s[i].0]
                == s[i].1 as nat,
    decreases s.len(),
{
    if s.len() > 0 {
        lemma_map_of_index(s.drop_last());
        assert forall|i: int| 0 <= i < s.len() implies map_of(s).dom().contains(
            (#[trigger] s[i]).0,
        ) && map_of(s)[s[i].0] == s[i].1 as nat by {
            if i < s.len() - 1 {
                assert(s.drop_last()[i] == s[i]);
                assert(s[i].0 != s.last().0);
            }
        }
    }
}

/// Updating the pair at index `i` to a new count of the same key updates the
/// denoted map at that key.
proof fn lemma_map_of_set_count<T>(s: Seq<(T, usize)>, i: int, c: usize)
    requires
        distinct_keys(s),
        0 <= i < s.len(),
    ensures
        map_of(s.update(i, (s[i].0, c))) == map_of(s).insert(s[i].0, c as nat),
    decreases s.len(),
{
    let t = s.update(i, (s[i].0, c));
    if i == s.len() - 1 {
        assert(t.drop_last() =~= s.drop_last());
        assert(map_of(t) =~= map_of(s).insert(s[i].0, c as nat));
    } else {
        assert(t.drop_last() =~= s.drop_last().update(i, (s[i].0, c)));
        assert(s.drop_last()[i] == s[i]);
        lemma_map_of_set_count(s.drop_last(), i, c);
        assert(s[i].0 != s.last().0);
        assert(map_of(t) =~= map_of(s).insert(s[i].0, c as nat));
    }
}

/// Appending a pair with a fresh key inserts it into the denoted map.
proof fn lemma_map_of_push<T>(s: Seq<(T, usize)>, x: T, c: usize)
    ensures
        map_of(s.push((x, c))) == map_of(s).insert(x, c as nat),
{
    assert(s.push((x, c)).drop_last() =~= s);
    assert(map_of(s.push((x, c))) =~= map_of(s).insert(x, c as nat));
}

/// `b` occurrences taken from a count of `a`, clamped at zero.
pub open spec fn clamped_diff(a: nat, b: nat) -> nat {
    if a >= b {
        (a - b) as nat
    } else {
        0
    }
}

/// A prefix of a sequence holds at most as many occurrences of any element
/// as the whole sequence.
proof fn lemma_take_count_le<T>(s: Seq<T>, k: int, x: T)
    requires
        0 <= k <= s.len(),
    ensures
        s.take(k).to_multiset().count(x) <= s.to_multiset().count(x),
{
    assert(s =~= s.take(k) + s.skip(k));
    vstd::seq_lib::lemma_multiset_commutative(s.take(k), s.skip(k));
}

/// `r` is the entrywise sum of `a` and `b`: each count is the sum of the two
/// operands' counts, and exactly the elements with a positive sum are kept.
pub open spec fn is_sum_of<T>(r: Map<T, nat>, a: Map<T, nat>, b: Map<T, nat>) -> bool {
    &&& forall|x: T| #[trigger] count_in(r, x) == count_in(a, x) + count_in(b, x)
    &&& forall|x: T| #[trigger] r.dom().contains(x) <==> count_in(a, x) + count_in(b, x) > 0
}

/// `r` is the clamped difference of `a` and `b`: each count is `a`'s count
/// less `b`'s, clamped at zero, and only the strictly positive results are
/// kept.
pub open spec fn is_difference_of<T>(r: Map<T, nat>, a: Map<T, nat>, b: Map<T, nat>) -> bool {
    &&& forall|x: T| #[trigger] count_in(r, x) == clamped_diff(count_in(a, x), count_in(b, x))
    &&& forall|x: T|
        #[trigger] r.dom().contains(x) <==> clamped_diff(count_in(a, x), count_in(b, x)) > 0
}

/// `r` is the intersection of `a` and `b`: each count is the minimum of the
/// two operands' counts, and only elements present in both survive.
pub open spec fn is_intersection_of<T>(r: Map<T, nat>, a: Map<T, nat>, b: Map<T, nat>) -> bool {
    &&& forall|x: T|
        #[trigger] count_in(r, x) == if count_in(a, x) <= count_in(b, x) {
            count_in(a, x)
        } else {
            count_in(b, x)
        }
    &&& forall|x: T|
        #[trigger] r.dom().contains(x) <==> count_in(a, x) > 0 && count_in(b, x) > 0
}

/// `r` is the union of `a` and `b`: each count is the maximum of the two
/// operands' counts, and exactly the elements present in either are kept.
pub open spec fn is_union_of<T>(r: Map<T, nat>, a: Map<T, nat>, b: Map<T, nat>) -> bool {
    &&& forall|x: T|
        #[trigger] count_in(r, x) == if count_in(a, x) >= count_in(b, x) {
            count_in(a, x)
        } else {
            count_in(b, x)
        }
    &&& forall|x: T|
        #[trigger] r.dom().contains(x) <==> count_in(a, x) > 0 || count_in(b, x) > 0
}

/// The combination a binary operator applies to a pair of counts.
#[derive(Clone, Copy)]
enum Op {
    Sum,
    Diff,
    Min,
    Max,
}

/// The count an operator produces from the two operands' counts of one
/// element.
spec fn apply(op: Op, a: nat, b: nat) -> nat {
    match op {
        Op::Sum => a + b,
        Op::Diff => clamped_diff(a, b),
        Op::Min => if a <= b {
            a
        } else {
            b
        },
        Op::Max => if a >= b {
            a
        } else {
            b
        },
    }
}

/// Apply one operator to a pair of counts.
fn combine_counts(op: Op, a: usize, b: usize) -> (c: usize)
    requires
        op == Op::Sum ==> a + b <= usize::MAX,
    ensures
        c as nat == apply(op, a as nat, b as nat),
{
    match op {
        Op::Sum => a + b,
        Op::Diff => if a >= b {
            a - b
        } else {
            0
        },
        Op::Min => if a <= b {
            a
        } else {
            b
        },
        Op::Max => if a >= b {
            a
        } else {
            b
        },
    }
}

/// Some pair among the first `k` of `s` carries the key `y`.
spec fn key_in_prefix<T>(s: Seq<(T, usize)>, k: int, y: T) -> bool {
    exists|i: int| 0 <= i < k && (#[trigger] s[i]).0 == y
}

/// Extending a prefix by one pair extends the keys it covers by that pair's
/// key.
proof fn lemma_prefix_step<T>(s: Seq<(T, usize)>, k: int)
    requires
        0 <= k < s.len(),
    ensures
        forall|y: T|
            #[trigger] key_in_prefix(s, k + 1, y) <==> key_in_prefix(s, k, y) || (s[k]).0 == y,
{
    assert forall|y: T| #[trigger] key_in_prefix(s, k + 1, y) implies key_in_prefix(s, k, y) || (
    s[k]).0 == y by {
        let i = choose|i: int| 0 <= i < k + 1 && (#[trigger] s[i]).0 == y;
        if i < k {
            assert((s[i]).0 == y);
            assert(key_in_prefix(s, k, y));
        }
    }
    assert forall|y: T| key_in_prefix(s, k, y) || (s[k]).0 == y implies #[trigger] key_in_prefix(
        s,
        k + 1,
        y,
    ) by {
        if key_in_prefix(s, k, y) {
            let i = choose|i: int| 0 <= i < k && (#[trigger] s[i]).0 == y;
            assert((s[i]).0 == y);
        } else {
            assert((s[k]).0 == y);
        }
    }
}

/// An empty sequence holds no occurrence of anything.
proof fn lemma_empty_counts<T>(s: Seq<T>)
    requires
        s.len() == 0,
    ensures
        forall|x: T| #[trigger] s.to_multiset().count(x) == 0,
        forall|x: T| !s.contains(x),
{
    broadcast use vstd::seq_lib::group_to_multiset_ensures;

    assert(s.to_multiset().len() == 0);
}

/// One step of tallying: counting the element at index `k` on top of the
/// prefix before it gives the counts of the prefix through it.
proof fn lemma_take_step<T>(s: Seq<T>, k: int)
    requires
        0 <= k < s.len(),
    ensures
        forall|x: T|
            #[trigger] s.take(k + 1).to_multiset().count(x) == s.take(k).to_multiset().count(x)
                + (if x == s[k] {
                    1nat
                } else {
                    0nat
                }),
        forall|x: T|
            #[trigger] s.take(k + 1).contains(x) <==> s.take(k).contains(x) || x == s[k],
        forall|x: T| #[trigger] s.take(k + 1).to_multiset().count(x) <= s.to_multiset().count(x),
{
    broadcast use vstd::seq_lib::group_to_multiset_ensures;
    broadcast use vstd::multiset::group_multiset_properties;

    s.lemma_take_succ_push(k);
    let t = s.take(k).to_multiset();
    assert(s.take(k + 1).to_multiset() =~= t.insert(s[k]));
    assert forall|x: T|
        #[trigger] s.take(k + 1).to_multiset().count(x) == t.count(x) + (if x == s[k] {
            1nat
        } else {
            0nat
        }) by {
        if x == s[k] {
            vstd::multiset::lemma_insert_increases_count_by_1(t, x);
        } else {
            vstd::multiset::lemma_insert_other_elements_unchanged(t, s[k], x);
        }
    }
    assert forall|x: T| #[trigger] s.take(k + 1).contains(x) implies s.take(k).contains(x) || x
        == s[k] by {
        assert(s.take(k + 1).to_multiset().count(x) > 0);
    }
    assert forall|x: T| s.take(k).contains(x) || x == s[k] implies #[trigger] s.take(
        k + 1,
    ).contains(x) by {
        assert(s.take(k + 1).to_multiset().count(x) > 0);
    }
    assert forall|x: T| #[trigger] s.take(k + 1).to_multiset().count(x) <= s.to_multiset().count(
        x,
    ) by {
        lemma_take_count_le(s, k + 1, x);
    }
}

/// Look up the index of the pair carrying key `x`, if any.
fn find_key<T: Element>(es: &Vec<(T, usize)>, x: &T) -> (r: Option<usize>)
    ensures
        (match r {
            Some(i) => i < es@.len() && es@[i as int].0 == *x,
            None => forall|i: int| 0 <= i < es@.len() ==> (#[trigger] es@[i]).0 != *x,
        }),
{
    let mut k: usize = 0;
    while k < es.len()
        invariant
            k <= es@.len(),
            forall|i: int| 0 <= i < k ==> (#[trigger] es@[i]).0 != *x,
        decreases es@.len() - k,
    {
        match es[k].0.compare(x) {
            Cmp::Equal => {
                return Some(k);
            },
            _ => {},
        }
        k += 1;
    }
    None
}

/// `p` comes no later than `q` in a ranking: a strictly greater count, or
/// equal counts and an element no greater under the tie-break order.
pub open spec fn precedes<T: Element>(p: (T, usize), q: (T, usize)) -> bool {
    p.1 > q.1 || (p.1 == q.1 && p.0.le(q.0))
}

/// `r` ranks the tally `m`: its pairs carry pairwise distinct elements, each
/// with the count `m` records for it; every element of `m` appears; and the
/// pairs are ordered by descending count, ties by ascending element.
pub open spec fn is_ranking_of<T: Element>(r: Seq<(T, usize)>, m: Map<T, nat>) -> bool {
    &&& forall|i: int|
        0 <= i < r.len() ==> m.dom().contains((#[trigger] r[i]).0) && m[(r[i]).0] == (
        r[i]).1 as nat
    &&& forall|i: int, j: int|
        0 <= i < j < r.len() ==> (#[trigger] r[i]).0 != (#[trigger] r[j]).0
    &&& forall|x: T|
        #[trigger] m.dom().contains(x) ==> exists|i: int|
            0 <= i < r.len() && (#[trigger] r[i]).0 == x
    &&& forall|a: int, b: int| 0 <= a < b < r.len() ==> precedes(#[trigger] r[a], #[trigger] r[b])
}

/// The ranking order is total: of any two pairs, one comes no later than the
/// other.
proof fn lemma_precedes_total<T: Element>(p: (T, usize), q: (T, usize))
    ensures
        precedes(p, q) || precedes(q, p),
{
    if p.1 == q.1 {
        T::lemma_le_total(p.0, q.0);
    }
}

/// The ranking order is transitive.
proof fn lemma_precedes_transitive<T: Element>(p: (T, usize), q: (T, usize), s: (T, usize))
    requires
        precedes(p, q),
        precedes(q, s),
    ensures
        precedes(p, s),
{
    if p.1 == q.1 && q.1 == s.1 {
        T::lemma_le_transitive(p.0, q.0, s.0);
    }
}

/// Decide whether `p` comes no later than `q` in the ranking order.
fn ranks_before<T: Element>(p: &(T, usize), q: &(T, usize)) -> (b: bool)
    ensures
        b == precedes(*p, *q),
{
    if p.1 > q.1 {
        true
    } else if p.1 < q.1 {
        false
    } else {
        match p.0.compare(&q.0) {
            Cmp::Less => true,
            Cmp::Equal => {
                proof {
                    T::lemma_le_reflexive(p.0);
                }
                true
            },
            Cmp::Greater => {
                proof {
                    if p.0.le(q.0) {
                        T::lemma_le_antisymmetric(p.0, q.0);
                    }
                }
                false
            },
        }
    }
}

/// Swapping two positions of a sequence leaves its multiset of elements
/// unchanged.
proof fn lemma_swap_multiset<T>(s: Seq<T>, i: int, j: int)
    requires
        0 <= i < j < s.len(),
    ensures
        s.update(i, s[j]).update(j, s[i]).to_multiset() == s.to_multiset(),
{
    broadcast use vstd::seq_lib::group_to_multiset_ensures;
    broadcast use vstd::multiset::group_multiset_properties;

    let s1 = s.update(i, s[j]);
    let s2 = s1.update(j, s[i]);
    vstd::seq_lib::to_multiset_update(s, i, s[j]);
    vstd::seq_lib::to_multiset_update(s1, j, s[i]);
    assert(s1[j] == s[j]);
    assert(s.contains(s[i]));
    assert(s.contains(s[j]));
    assert(s.to_multiset().count(s[i]) > 0);
    assert(s.to_multiset().count(s[j]) > 0);
    assert(s2.to_multiset() =~= s.to_multiset());
}

/// A reordering of well-formed entries, sorted by the ranking order, is the
/// ranking of the map those entries denote.
proof fn lemma_ranking_from_permutation<T: Element>(es: Seq<(T, usize)>, r: Seq<(T, usize)>)
    requires
        distinct_keys(es),
        r.to_multiset() == es.to_multiset(),
        forall|a: int, b: int| 0 <= a < b < r.len() ==> precedes(#[trigger] r[a], #[trigger] r[b]),
    ensures
        is_ranking_of(r, map_of(es)),
{
    broadcast use vstd::seq_lib::group_to_multiset_ensures;

    lemma_map_of_dom(es);
    lemma_map_of_index(es);
    let m = map_of(es);
    assert forall|i: int| 0 <= i < r.len() implies m.dom().contains((#[trigger] r[i]).0) && m[(
    r[i]).0] == (r[i]).1 as nat by {
        assert(r.contains(r[i]));
        assert(es.to_multiset().count(r[i]) > 0);
        assert(es.contains(r[i]));
        let k = choose|k: int| 0 <= k < es.len() && es[k] == r[i];
        assert((es[k]).0 == (r[i]).0);
    }
    assert(es.no_duplicates()) by {
        assert forall|i: int, j: int|
            0 <= i < es.len() && 0 <= j < es.len() && i != j implies es[i] != es[j] by {
            if i < j {
                assert((es[i]).0 != (es[j]).0);
            } else {
                assert((es[j]).0 != (es[i]).0);
            }
        }
    }
    es.lemma_multiset_has_no_duplicates();
    assert forall|x: (T, usize)| r.to_multiset().contains(x) implies r.to_multiset().count(x)
        == 1 by {
        assert(es.to_multiset().count(x) == r.to_multiset().count(x));
    }
    r.lemma_multiset_has_no_duplicates_conv();
    assert forall|i: int, j: int| 0 <= i < j < r.len() implies (#[trigger] r[i]).0 != (
    #[trigger] r[j]).0 by {
        if (r[i]).0 == (r[j]).0 {
            assert(r[i] != r[j]);
            assert(r.contains(r[i]));
            assert(r.contains(r[j]));
            assert(es.to_multiset().count(r[i]) > 0);
            assert(es.to_multiset().count(r[j]) > 0);
            assert(es.contains(r[i]));
            assert(es.contains(r[j]));
            let k1 = choose|k: int| 0 <= k < es.len() && es[k] == r[i];
            let k2 = choose|k: int| 0 <= k < es.len() && es[k] == r[j];
            assert(k1 != k2);
            if k1 < k2 {
                assert((es[k1]).0 != (es[k2]).0);
            } else {
                assert((es[k2]).0 != (es[k1]).0);
            }
        }
    }
    assert forall|x: T| #[trigger] m.dom().contains(x) implies exists|i: int|
        0 <= i < r.len() && (#[trigger] r[i]).0 == x by {
        let k = choose|k: int| 0 <= k < es.len() && (#[trigger] es[k]).0 == x;
        assert(es.contains(es[k]));
        assert(r.to_multiset().count(es[k]) > 0);
        assert(r.contains(es[k]));
        let i = choose|i: int| 0 <= i < r.len() && r[i] == es[k];
        assert((r[i]).0 == x);
    }
}

impl<T> View for Counter<T> {
    type V = Map<T, nat>;

    closed spec fn view(&self) -> Map<T, nat> {
        map_of(self.entries@)
    }
}

impl<T> Counter<T> {
    #[verifier::type_invariant]
    spec fn wf(self) -> bool {
        distinct_keys(self.entries@)
    }

    /// The number of occurrences recorded for `x`; zero when `x` is absent.
    pub open spec fn count_of(self, x: T) -> nat {
        count_in(self@, x)
    }
}

impl<T: Element> Counter<T> {
    /// Create a new, empty `Counter`.
    pub fn new() -> (c: Counter<T>)
        ensures
            c@ == Map::<T, nat>::empty(),
    {
        Counter { entries: Vec::new() }
    }

    /// Create a new `Counter` initialized with the given elements: each
    /// occurrence in `v` is counted once.
    pub fn init(v: &Vec<T>) -> (c: Counter<T>)
        ensures
            forall|x: T|
                #![trigger c.count_of(x)]
                #![trigger count_in(c@, x)]
                c.count_of(x) == v@.to_multiset().count(x),
            forall|x: T| #[trigger] c@.dom().contains(x) <==> v@.contains(x),
    {
        let mut c = Counter::new();
        proof {
            broadcast use vstd::seq_lib::group_to_multiset_ensures;

            assert(v.len() == v@.len());
            assert(v@.to_multiset().len() == v@.len());
            assert forall|x: T| c.count_of(x) + v@.to_multiset().count(x) <= usize::MAX by {
                assert(v@.to_multiset().count(x) <= v@.to_multiset().len());
            }
        }
        c.update(v);
        c
    }

    /// Add one to the stored count of every element encountered in `v`,
    /// entering an element with count 1 when it was absent. Repeated
    /// elements of `v` accumulate.
    ///
    /// The counts are machine words, so the caller keeps every resulting
    /// total within `usize::MAX`; tallying a fresh sequence always does.
    pub fn update(&mut self, v: &Vec<T>)
        requires
            forall|x: T|
                old(self).count_of(x) + v@.to_multiset().count(x) <= usize::MAX,
        ensures
            forall|x: T|
                #![trigger final(self).count_of(x)]
                #![trigger count_in(final(self)@, x)]
                final(self).count_of(x) == old(self).count_of(x) + v@.to_multiset().count(x),
            forall|x: T|
                #[trigger] final(self)@.dom().contains(x) <==> old(self)@.dom().contains(x)
                    || v@.contains(x),
    {
        proof {
            use_type_invariant(&*self);
            lemma_empty_counts(v@.take(0));
        }
        let mut es: Vec<(T, usize)> = Vec::new();
        std::mem::swap(&mut es, &mut self.entries);
        let mut k: usize = 0;
        while k < v.len()
            invariant
                k <= v@.len(),
                distinct_keys(es@),
                forall|x: T|
                    #[trigger] count_in(map_of(es@), x) == old(self).count_of(x)
                        + v@.take(k as int).to_multiset().count(x),
                forall|x: T|
                    #[trigger] map_of(es@).dom().contains(x) <==> old(self)@.dom().contains(x)
                        || v@.take(k as int).contains(x),
                forall|x: T|
                    #[trigger] old(self).count_of(x) + v@.to_multiset().count(x) <= usize::MAX,
            decreases v@.len() - k,
        {
            let ghost before = map_of(es@);
            let x = v[k];
            proof {
                lemma_take_step(v@, k as int);
            }
            match find_key(&es, &x) {
                Some(i) => {
                    proof {
                        lemma_map_of_index(es@);
                        assert(count_in(before, x) == es@[i as int].1);
                        assert(v@.take(k as int + 1).to_multiset().count(x) <= v@.to_multiset().count(x));
                        assert(es@[i as int].1 + 1 <= usize::MAX);
                    }
                    let c = es[i].1;
                    proof {
                        lemma_map_of_set_count(es@, i as int, (c + 1) as usize);
                    }
                    es.set(i, (x, c + 1));
                    proof {
                        assert(map_of(es@) == before.insert(x, (c + 1) as nat));
                        assert forall|y: T|
                            #[trigger] count_in(map_of(es@), y) == old(self).count_of(y)
                                + v@.take(k as int + 1).to_multiset().count(y) by {
                            if y != x {
                                assert(count_in(map_of(es@), y) == count_in(before, y));
                            }
                        }
                    }
                },
                None => {
                    proof {
                        lemma_map_of_dom(es@);
                        assert(!before.dom().contains(x));
                        assert(count_in(before, x) == 0);
                        lemma_map_of_push(es@, x, 1);
                    }
                    es.push((x, 1));
                    proof {
                        assert(map_of(es@) == before.insert(x, 1nat));
                        assert forall|y: T|
                            #[trigger] count_in(map_of(es@), y) == old(self).count_of(y)
                                + v@.take(k as int + 1).to_multiset().count(y) by {
                            if y != x {
                                assert(count_in(map_of(es@), y) == count_in(before, y));
                            }
                        }
                    }
                },
            }
            k += 1;
        }
        proof {
            v@.lemma_take_len();
        }
        self.entries = es;
    }

    /// Take one from the stored count of every element encountered in `v`,
    /// entering an element with count 0 when it was absent. Every decrement
    /// clamps at zero: the counts are unsigned and never go negative.
    pub fn subtract(&mut self, v: &Vec<T>)
        ensures
            forall|x: T|
                #![trigger final(self).count_of(x)]
                #![trigger count_in(final(self)@, x)]
                final(self).count_of(x) == clamped_diff(
                    old(self).count_of(x),
                    v@.to_multiset().count(x),
                ),
            forall|x: T|
                #[trigger] final(self)@.dom().contains(x) <==> old(self)@.dom().contains(x)
                    || v@.contains(x),
    {
        proof {
            use_type_invariant(&*self);
            lemma_empty_counts(v@.take(0));
        }
        let mut es: Vec<(T, usize)> = Vec::new();
        std::mem::swap(&mut es, &mut self.entries);
        let mut k: usize = 0;
        while k < v.len()
            invariant
                k <= v@.len(),
                distinct_keys(es@),
                forall|x: T|
                    #[trigger] count_in(map_of(es@), x) == clamped_diff(
                        old(self).count_of(x),
                        v@.take(k as int).to_multiset().count(x),
                    ),
                forall|x: T|
                    #[trigger] map_of(es@).dom().contains(x) <==> old(self)@.dom().contains(x)
                        || v@.take(k as int).contains(x),
            decreases v@.len() - k,
        {
            let ghost before = map_of(es@);
            let x = v[k];
            proof {
                lemma_take_step(v@, k as int);
            }
            match find_key(&es, &x) {
                Some(i) => {
                    proof {
                        lemma_map_of_index(es@);
                        assert(count_in(before, x) == es@[i as int].1);
                    }
                    let c = es[i].1;
                    let c2 = if c > 0 {
                        c - 1
                    } else {
                        0
                    };
                    proof {
                        lemma_map_of_set_count(es@, i as int, c2);
                    }
                    es.set(i, (x, c2));
                    proof {
                        assert(map_of(es@) == before.insert(x, c2 as nat));
                        assert forall|y: T|
                            #[trigger] count_in(map_of(es@), y) == clamped_diff(
                                old(self).count_of(y),
                                v@.take(k as int + 1).to_multiset().count(y),
                            ) by {
                            if y != x {
                                assert(count_in(map_of(es@), y) == count_in(before, y));
                            }
                        }
                    }
                },
                None => {
                    proof {
                        lemma_map_of_dom(es@);
                        assert(!before.dom().contains(x));
                        assert(count_in(before, x) == 0);
                        lemma_map_of_push(es@, x, 0);
                    }
                    es.push((x, 0));
                    proof {
                        assert(map_of(es@) == before.insert(x, 0nat));
                        assert forall|y: T|
                            #[trigger] count_in(map_of(es@), y) == clamped_diff(
                                old(self).count_of(y),
                                v@.take(k as int + 1).to_multiset().count(y),
                            ) by {
                            if y != x {
                                assert(count_in(map_of(es@), y) == count_in(before, y));
                            }
                        }
                    }
                },
            }
            k += 1;
        }
        proof {
            v@.lemma_take_len();
        }
        self.entries = es;
    }

    /// Combine two counters entrywise with `op`, keeping exactly the
    /// elements whose combined count is positive.
    fn combine(&self, rhs: &Counter<T>, op: Op) -> (r: Counter<T>)
        requires
            op == Op::Sum ==> forall|x: T|
                self.count_of(x) + rhs.count_of(x) <= usize::MAX,
        ensures
            forall|y: T|
                #[trigger] r.count_of(y) == apply(op, self.count_of(y), rhs.count_of(y)),
            forall|y: T|
                #[trigger] r@.dom().contains(y) <==> apply(op, self.count_of(y), rhs.count_of(y))
                    > 0,
    {
        proof {
            use_type_invariant(&*self);
            use_type_invariant(&*rhs);
            lemma_map_of_index(self.entries@);
            lemma_map_of_index(rhs.entries@);
            lemma_map_of_dom(self.entries@);
            lemma_map_of_dom(rhs.entries@);
        }
        let mut out: Vec<(T, usize)> = Vec::new();
        let mut k: usize = 0;
        while k < self.entries.len()
            invariant
                k <= self.entries@.len(),
                distinct_keys(self.entries@),
                distinct_keys(rhs.entries@),
                distinct_keys(out@),
                op == Op::Sum ==> forall|x: T|
                    self.count_of(x) + rhs.count_of(x) <= usize::MAX,
                forall|y: T|
                    #[trigger] count_in(map_of(out@), y) == (if key_in_prefix(
                        self.entries@,
                        k as int,
                        y,
                    ) {
                        apply(op, self.count_of(y), rhs.count_of(y))
                    } else {
                        0nat
                    }),
                forall|y: T|
                    #[trigger] map_of(out@).dom().contains(y) <==> key_in_prefix(
                        self.entries@,
                        k as int,
                        y,
                    ) && apply(op, self.count_of(y), rhs.count_of(y)) > 0,
            decreases self.entries@.len() - k,
        {
            let ghost before = map_of(out@);
            let x = self.entries[k].0;
            let a = self.entries[k].1;
            let b = rhs.count(&x);
            proof {
                lemma_map_of_index(self.entries@);
                assert(a == self.count_of(x));
                lemma_prefix_step(self.entries@, k as int);
                assert(!key_in_prefix(self.entries@, k as int, x)) by {
                    if key_in_prefix(self.entries@, k as int, x) {
                        let i = choose|i: int|
                            0 <= i < k && (#[trigger] self.entries@[i]).0 == x;
                        assert((self.entries@[i]).0 != (self.entries@[k as int]).0);
                    }
                }
                assert(count_in(before, x) == 0);
            }
            let c = combine_counts(op, a, b);
            if c > 0 {
                proof {
                    assert(!before.dom().contains(x));
                    lemma_map_of_dom(out@);
                    assert forall|j: int| 0 <= j < out@.len() implies (#[trigger] out@[j]).0
                        != x by {
                        if (out@[j]).0 == x {
                            assert(before.dom().contains(x));
                        }
                    }
                    lemma_map_of_push(out@, x, c);
                }
                out.push((x, c));
                proof {
                    assert(map_of(out@) == before.insert(x, c as nat));
                }
            }
            proof {
                assert forall|y: T|
                    #[trigger] count_in(map_of(out@), y) == (if key_in_prefix(
                        self.entries@,
                        k as int + 1,
                        y,
                    ) {
                        apply(op, self.count_of(y), rhs.count_of(y))
                    } else {
                        0nat
                    }) by {
                    if y != x && c > 0 {
                        assert(count_in(map_of(out@), y) == count_in(before, y));
                    }
                }
                assert forall|y: T|
                    #[trigger] map_of(out@).dom().contains(y) <==> (key_in_prefix(
                        self.entries@,
                        k as int + 1,
                        y,
                    ) && apply(op, self.count_of(y), rhs.count_of(y)) > 0) by {
                    if y != x && c > 0 {
                        assert(map_of(out@).dom().contains(y) <==> before.dom().contains(y));
                    }
                }
            }
            k += 1;
        }
        let ghost n1 = self.entries@.len() as int;
        let mut j: usize = 0;
        while j < rhs.entries.len()
            invariant
                j <= rhs.entries@.len(),
                distinct_keys(self.entries@),
                distinct_keys(rhs.entries@),
                distinct_keys(out@),
                n1 == self.entries@.len() as int,
                op == Op::Sum ==> forall|x: T|
                    self.count_of(x) + rhs.count_of(x) <= usize::MAX,
                forall|y: T|
                    #[trigger] count_in(map_of(out@), y) == (if key_in_prefix(
                        self.entries@,
                        n1,
                        y,
                    ) || key_in_prefix(rhs.entries@, j as int, y) {
                        apply(op, self.count_of(y), rhs.count_of(y))
                    } else {
                        0nat
                    }),
                forall|y: T|
                    #[trigger] map_of(out@).dom().contains(y) <==> (key_in_prefix(
                        self.entries@,
                        n1,
                        y,
                    ) || key_in_prefix(rhs.entries@, j as int, y)) && apply(
                        op,
                        self.count_of(y),
                        rhs.count_of(y),
                    ) > 0,
            decreases rhs.entries@.len() - j,
        {
            let ghost before = map_of(out@);
            let x = rhs.entries[j].0;
            let b = rhs.entries[j].1;
            proof {
                lemma_map_of_index(rhs.entries@);
                assert(b == rhs.count_of(x));
                lemma_prefix_step(rhs.entries@, j as int);
            }
            match find_key(&self.entries, &x) {
                Some(i) => {
                    proof {
                        assert((self.entries@[i as int]).0 == x);
                        assert(key_in_prefix(self.entries@, n1, x));
                        assert forall|y: T|
                            #[trigger] count_in(map_of(out@), y) == (if key_in_prefix(
                                self.entries@,
                                n1,
                                y,
                            ) || key_in_prefix(rhs.entries@, j as int + 1, y) {
                                apply(op, self.count_of(y), rhs.count_of(y))
                            } else {
                                0nat
                            }) by {}
                    }
                },
                None => {
                    proof {
                        lemma_map_of_dom(self.entries@);
                        assert(!self@.dom().contains(x));
                        assert(self.count_of(x) == 0);
                        assert(!key_in_prefix(self.entries@, n1, x));
                        assert(!key_in_prefix(rhs.entries@, j as int, x)) by {
                            if key_in_prefix(rhs.entries@, j as int, x) {
                                let i = choose|i: int|
                                    0 <= i < j && (#[trigger] rhs.entries@[i]).0 == x;
                                assert((rhs.entries@[i]).0 != (rhs.entries@[j as int]).0);
                            }
                        }
                        assert(count_in(before, x) == 0);
                    }
                    let c = combine_counts(op, 0, b);
                    if c > 0 {
                        proof {
                            assert(!before.dom().contains(x));
                            lemma_map_of_dom(out@);
                            assert forall|t: int| 0 <= t < out@.len() implies (#[trigger] out@[t]).0
                                != x by {
                                if (out@[t]).0 == x {
                                    assert(before.dom().contains(x));
                                }
                            }
                            lemma_map_of_push(out@, x, c);
                        }
                        out.push((x, c));
                        proof {
                            assert(map_of(out@) == before.insert(x, c as nat));
                        }
                    }
                    proof {
                        assert forall|y: T|
                            #[trigger] count_in(map_of(out@), y) == (if key_in_prefix(
                                self.entries@,
                                n1,
                                y,
                            ) || key_in_prefix(rhs.entries@, j as int + 1, y) {
                                apply(op, self.count_of(y), rhs.count_of(y))
                            } else {
                                0nat
                            }) by {
                            if y != x && c > 0 {
                                assert(count_in(map_of(out@), y) == count_in(before, y));
                            }
                        }
                        assert forall|y: T|
                            #[trigger] map_of(out@).dom().contains(y) <==> ((key_in_prefix(
                                self.entries@,
                                n1,
                                y,
                            ) || key_in_prefix(rhs.entries@, j as int + 1, y)) && apply(
                                op,
                                self.count_of(y),
                                rhs.count_of(y),
                            ) > 0) by {
                            if y != x && c > 0 {
                                assert(map_of(out@).dom().contains(y) <==> before.dom().contains(
                                    y,
                                ));
                            }
                        }
                    }
                },
            }
            j += 1;
        }
        let r = Counter { entries: out };
        proof {
            lemma_map_of_dom(self.entries@);
            lemma_map_of_dom(rhs.entries@);
            assert forall|y: T|
                #[trigger] r.count_of(y) == apply(op, self.count_of(y), rhs.count_of(y)) by {
                if !key_in_prefix(self.entries@, n1, y) && !key_in_prefix(
                    rhs.entries@,
                    rhs.entries@.len() as int,
                    y,
                ) {
                    assert(!self@.dom().contains(y));
                    assert(!rhs@.dom().contains(y));
                    assert(apply(op, 0, 0) == 0);
                }
            }
            assert forall|y: T|
                #[trigger] r@.dom().contains(y) <==> apply(op, self.count_of(y), rhs.count_of(y))
                    > 0 by {
                if !key_in_prefix(self.entries@, n1, y) && !key_in_prefix(
                    rhs.entries@,
                    rhs.entries@.len() as int,
                    y,
                ) {
                    assert(!self@.dom().contains(y));
                    assert(!rhs@.dom().contains(y));
                    assert(apply(op, 0, 0) == 0);
                }
            }
        }
        r
    }

    /// Add two counters together: every element's counts accumulate.
    ///
    /// The counts are machine words, so the caller keeps every sum within
    /// `usize::MAX`.
    pub fn add(&self, rhs: &Counter<T>) -> (r: Counter<T>)
        requires
            forall|x: T| self.count_of(x) + rhs.count_of(x) <= usize::MAX,
        ensures
            is_sum_of(r@, self@, rhs@),
    {
        let r = self.combine(rhs, Op::Sum);
        proof {
            assert forall|x: T| #[trigger] count_in(r@, x) == count_in(self@, x) + count_in(
                rhs@,
                x,
            ) by {
                assert(r.count_of(x) == apply(Op::Sum, self.count_of(x), rhs.count_of(x)));
            }
            assert forall|x: T|
                #[trigger] r@.dom().contains(x) <==> count_in(self@, x) + count_in(rhs@, x)
                    > 0 by {
                assert(r@.dom().contains(x) <==> apply(
                    Op::Sum,
                    self.count_of(x),
                    rhs.count_of(x),
                ) > 0);
            }
        }
        r
    }

    /// Subtract `rhs` from `self`, keeping only strictly positive results:
    /// elements whose count would fall to zero or below are dropped.
    pub fn sub(&self, rhs: &Counter<T>) -> (r: Counter<T>)
        ensures
            is_difference_of(r@, self@, rhs@),
    {
        let r = self.combine(rhs, Op::Diff);
        proof {
            assert forall|x: T| #[trigger] count_in(r@, x) == clamped_diff(
                count_in(self@, x),
                count_in(rhs@, x),
            ) by {
                assert(r.count_of(x) == apply(Op::Diff, self.count_of(x), rhs.count_of(x)));
            }
            assert forall|x: T|
                #[trigger] r@.dom().contains(x) <==> clamped_diff(
                    count_in(self@, x),
                    count_in(rhs@, x),
                ) > 0 by {
                assert(r@.dom().contains(x) <==> apply(
                    Op::Diff,
                    self.count_of(x),
                    rhs.count_of(x),
                ) > 0);
            }
        }
        r
    }

    /// Intersection: every element's count is the minimum of the operands'
    /// counts, and only elements present in both survive.
    pub fn bitand(&self, rhs: &Counter<T>) -> (r: Counter<T>)
        ensures
            is_intersection_of(r@, self@, rhs@),
    {
        let r = self.combine(rhs, Op::Min);
        proof {
            assert forall|x: T|
                #[trigger] count_in(r@, x) == (if count_in(self@, x) <= count_in(rhs@, x) {
                    count_in(self@, x)
                } else {
                    count_in(rhs@, x)
                }) by {
                assert(r.count_of(x) == apply(Op::Min, self.count_of(x), rhs.count_of(x)));
            }
            assert forall|x: T|
                #[trigger] r@.dom().contains(x) <==> count_in(self@, x) > 0 && count_in(rhs@, x)
                    > 0 by {
                assert(r@.dom().contains(x) <==> apply(
                    Op::Min,
                    self.count_of(x),
                    rhs.count_of(x),
                ) > 0);
            }
        }
        r
    }

    /// Union: every element's count is the maximum of the operands' counts,
    /// and exactly the elements present in either are kept.
    pub fn bitor(&self, rhs: &Counter<T>) -> (r: Counter<T>)
        ensures
            is_union_of(r@, self@, rhs@),
    {
        let r = self.combine(rhs, Op::Max);
        proof {
            assert forall|x: T|
                #[trigger] count_in(r@, x) == (if count_in(self@, x) >= count_in(rhs@, x) {
                    count_in(self@, x)
                } else {
                    count_in(rhs@, x)
                }) by {
                assert(r.count_of(x) == apply(Op::Max, self.count_of(x), rhs.count_of(x)));
            }
            assert forall|x: T|
                #[trigger] r@.dom().contains(x) <==> count_in(self@, x) > 0 || count_in(rhs@, x)
                    > 0 by {
                assert(r@.dom().contains(x) <==> apply(
                    Op::Max,
                    self.count_of(x),
                    rhs.count_of(x),
                ) > 0);
            }
        }
        r
    }

    /// The count stored for `x`, zero when `x` is absent.
    pub fn count(&self, x: &T) -> (c: usize)
        ensures
            c == self.count_of(*x),
    {
        proof {
            use_type_invariant(&*self);
        }
        match find_key(&self.entries, x) {
            Some(i) => {
                proof {
                    lemma_map_of_index(self.entries@);
                }
                self.entries[i].1
            },
            None => {
                proof {
                    lemma_map_of_dom(self.entries@);
                }
                0
            },
        }
    }

    /// The entries ranked most to least common: `(element, count)` pairs
    /// sorted by descending count, with ties broken by ascending element.
    /// The counter itself is unchanged, and asking again returns the same
    /// ranking.
    pub fn most_common(&self) -> (r: Vec<(T, usize)>)
        ensures
            is_ranking_of(r@, self@),
    {
        proof {
            use_type_invariant(&*self);
        }
        let ghost es = self.entries@;
        let mut r: Vec<(T, usize)> = Vec::new();
        let mut k: usize = 0;
        while k < self.entries.len()
            invariant
                k <= es.len(),
                es == self.entries@,
                r@ == es.take(k as int),
            decreases es.len() - k,
        {
            let p = self.entries[k];
            proof {
                es.lemma_take_succ_push(k as int);
            }
            r.push(p);
            k += 1;
        }
        proof {
            es.lemma_take_len();
            assert(r@ == es);
        }
        let n = r.len();
        let mut i: usize = 0;
        while i < n
            invariant
                i <= n,
                n == r@.len(),
                r@.to_multiset() == es.to_multiset(),
                forall|a: int, b: int|
                    0 <= a < b < i ==> precedes(#[trigger] r@[a], #[trigger] r@[b]),
                forall|a: int, b: int|
                    0 <= a < i && i <= b < n ==> precedes(#[trigger] r@[a], #[trigger] r@[b]),
            decreases n - i,
        {
            let mut m = i;
            let mut t = i + 1;
            proof {
                T::lemma_le_reflexive(r@[i as int].0);
                assert(precedes(r@[i as int], r@[i as int]));
            }
            while t < n
                invariant
                    i <= m < t <= n,
                    i < n,
                    n == r@.len(),
                    forall|b: int| i <= b < t ==> precedes(r@[m as int], #[trigger] r@[b]),
                decreases n - t,
            {
                let pt = r[t];
                let pm = r[m];
                if ranks_before(&pt, &pm) {
                    proof {
                        assert forall|b: int| i <= b < t + 1 implies precedes(
                            r@[t as int],
                            #[trigger] r@[b],
                        ) by {
                            if b < t {
                                lemma_precedes_transitive::<T>(r@[t as int], r@[m as int], r@[b]);
                            } else {
                                T::lemma_le_reflexive(r@[t as int].0);
                            }
                        }
                    }
                    m = t;
                } else {
                    proof {
                        lemma_precedes_total::<T>(r@[m as int], r@[t as int]);
                    }
                }
                t += 1;
            }
            let ghost prev = r@;
            let pi = r[i];
            let pm = r[m];
            r.set(i, pm);
            r.set(m, pi);
            proof {
                assert(r@ == prev.update(i as int, pm).update(m as int, pi));
                if m == i {
                    assert(r@ =~= prev);
                } else {
                    lemma_swap_multiset(prev, i as int, m as int);
                }
                assert forall|a: int, b: int| 0 <= a < b < i + 1 implies precedes(
                    #[trigger] r@[a],
                    #[trigger] r@[b],
                ) by {
                    if b < i as int {
                        assert(precedes(prev[a], prev[b]));
                    } else {
                        assert(r@[b] == prev[m as int]);
                        assert(precedes(prev[a], prev[m as int]));
                    }
                }
                assert forall|a: int, b: int| 0 <= a < i + 1 && i + 1 <= b < n implies precedes(
                    #[trigger] r@[a],
                    #[trigger] r@[b],
                ) by {
                    let vb = if b == m as int {
                        prev[i as int]
                    } else {
                        prev[b]
                    };
                    assert(r@[b] == vb);
                    if a < i as int {
                        assert(precedes(prev[a], vb));
                    } else {
                        assert(r@[a] == prev[m as int]);
                        assert(precedes(prev[m as int], vb));
                    }
                }
            }
            i += 1;
        }
        proof {
            use_type_invariant(&*self);
            lemma_ranking_from_permutation(es, r@);
        }
        r
    }
}

} // verus!
