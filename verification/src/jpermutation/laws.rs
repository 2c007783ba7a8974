//! What the step from one permutation to the next keeps and brings about,
//! where the elements are in a strict total order: the step leads to the least
//! of the permutations that are greater, and starting from the ascending
//! order it passes through every permutation once.

use crate::jpermutation::ascent_at;
use crate::jpermutation::exchanged;
use crate::jpermutation::has_ascent;
use crate::jpermutation::is_partner;
use crate::jpermutation::is_pivot;
use crate::jpermutation::lemma_partner_unique;
use crate::jpermutation::lemma_pivot_unique;
use crate::jpermutation::next_permutation;
use crate::jpermutation::partner;
use crate::jpermutation::pivot;
use crate::jpermutation::successor;
use crate::jvec::less;
use vstd::prelude::*;

verus! {

/// `<` on `T` is a strict total order: nothing is less than itself, what is
/// less than something less than a third is less than the third, and of two
/// different values one is less than the other.
pub open spec fn strictly_totally_ordered<T: PartialOrd>() -> bool {
    &&& forall|a: T| !#[trigger] less(a, a)
    &&& forall|a: T, b: T, c: T| #[trigger] less(a, b) && #[trigger] less(b, c) ==> less(a, c)
    &&& forall|a: T, b: T| a != b ==> #[trigger] less(a, b) || less(b, a)
}

/// The integers of each width are in a strict total order.
pub proof fn lemma_integers_are_strictly_totally_ordered()
    ensures
        strictly_totally_ordered::<u8>(),
        strictly_totally_ordered::<u16>(),
        strictly_totally_ordered::<u32>(),
        strictly_totally_ordered::<u64>(),
        strictly_totally_ordered::<u128>(),
        strictly_totally_ordered::<usize>(),
        strictly_totally_ordered::<i8>(),
        strictly_totally_ordered::<i16>(),
        strictly_totally_ordered::<i32>(),
        strictly_totally_ordered::<i64>(),
        strictly_totally_ordered::<i128>(),
        strictly_totally_ordered::<isize>(),
{
}

/// `s` and `t` hold the same elements, each as often as the other.
pub open spec fn is_permutation_of<T>(s: Seq<T>, t: Seq<T>) -> bool {
    s.to_multiset() == t.to_multiset()
}

/// `s` and `t` are equal up to position `i`, where `s` has the lesser element.
pub open spec fn precedes_at<T: PartialOrd>(s: Seq<T>, t: Seq<T>, i: int) -> bool {
    &&& s.len() == t.len()
    &&& 0 <= i < s.len()
    &&& less(s[i], t[i])
    &&& forall|j: int| 0 <= j < i ==> s[j] == t[j]
}

/// `s` comes before `t` in lexicographic order.
pub open spec fn precedes<T: PartialOrd>(s: Seq<T>, t: Seq<T>) -> bool {
    exists|i: int| precedes_at(s, t, i)
}

/// No element of `s` is less than a later one.
pub open spec fn non_increasing<T: PartialOrd>(s: Seq<T>) -> bool {
    forall|i: int, j: int| 0 <= i <= j < s.len() ==> !less(#[trigger] s[i], #[trigger] s[j])
}

/// No element of `s` is less than an earlier one.
pub open spec fn non_decreasing<T: PartialOrd>(s: Seq<T>) -> bool {
    forall|i: int, j: int| 0 <= i <= j < s.len() ==> !less(#[trigger] s[j], #[trigger] s[i])
}

/// The last position below `bound` at which `s` rises, or -1.
spec fn last_ascent_below<T: PartialOrd>(s: Seq<T>, bound: int) -> int
    decreases bound,
{
    if bound <= 0 {
        -1
    } else if ascent_at(s, bound - 1) {
        bound - 1
    } else {
        last_ascent_below(s, bound - 1)
    }
}

proof fn lemma_last_ascent_below<T: PartialOrd>(s: Seq<T>, bound: int)
    ensures
        -1 <= last_ascent_below(s, bound),
        last_ascent_below(s, bound) < bound || bound <= 0,
        last_ascent_below(s, bound) >= 0 ==> ascent_at(s, last_ascent_below(s, bound)),
        forall|j: int| last_ascent_below(s, bound) < j < bound ==> !ascent_at(s, j),
    decreases bound,
{
    if bound > 0 && !ascent_at(s, bound - 1) {
        lemma_last_ascent_below(s, bound - 1);
    }
}

/// The last position from `from` up to, but not including, `bound` whose
/// element is greater than `x`, or `from - 1`.
spec fn last_greater_below<T: PartialOrd>(s: Seq<T>, x: T, from: int, bound: int) -> int
    decreases bound - from,
{
    if bound <= from {
        from - 1
    } else if less(x, s[bound - 1]) {
        bound - 1
    } else {
        last_greater_below(s, x, from, bound - 1)
    }
}

proof fn lemma_last_greater_below<T: PartialOrd>(s: Seq<T>, x: T, from: int, bound: int)
    requires
        from <= bound,
    ensures
        from - 1 <= last_greater_below(s, x, from, bound) < bound,
        last_greater_below(s, x, from, bound) >= from ==> less(
            x,
            s[last_greater_below(s, x, from, bound)],
        ),
        forall|j: int| last_greater_below(s, x, from, bound) < j < bound ==> !less(x, s[j]),
    decreases bound - from,
{
    if bound > from && !less(x, s[bound - 1]) {
        lemma_last_greater_below(s, x, from, bound - 1);
    }
}

/// A sequence that rises somewhere has a pivot, and the pivot has a partner.
pub proof fn lemma_pivot_and_partner<T: PartialOrd>(s: Seq<T>)
    requires
        has_ascent(s),
    ensures
        is_pivot(s, pivot(s)),
        is_partner(s, pivot(s), partner(s)),
        0 <= pivot(s) < partner(s) < s.len(),
{
    let witness = choose|k: int| ascent_at(s, k);
    let n = s.len() as int;
    lemma_last_ascent_below(s, n);
    let k = last_ascent_below(s, n);
    if k < witness {
        assert(!ascent_at(s, witness));
    }
    assert(is_pivot(s, k));
    lemma_pivot_unique(s, k);
    lemma_last_greater_below(s, s[k], k + 1, n);
    let l = last_greater_below(s, s[k], k + 1, n);
    if l < k + 1 {
        assert(!less(s[k], s[k + 1]));
    }
    assert(is_partner(s, k, l));
    lemma_partner_unique(s, k, l);
}

/// The elements of the permutation that follows, position by position.
pub proof fn lemma_successor_elements<T: PartialOrd>(s: Seq<T>)
    requires
        has_ascent(s),
    ensures
        successor(s).len() == s.len(),
        forall|j: int| 0 <= j < pivot(s) ==> successor(s)[j] == s[j],
        successor(s)[pivot(s)] == s[partner(s)],
        forall|j: int|
            pivot(s) < j < s.len() ==> #[trigger] successor(s)[j] == exchanged(
                s,
                pivot(s),
                partner(s),
            )[s.len() - 1 - (j - pivot(s) - 1)],
{
    lemma_pivot_and_partner(s);
}

/// Exchanging two elements of a sequence leaves a permutation of it.
pub proof fn lemma_exchanged_is_permutation<T>(s: Seq<T>, i: int, j: int)
    requires
        0 <= i < s.len(),
        0 <= j < s.len(),
    ensures
        is_permutation_of(exchanged(s, i, j), s),
{
    broadcast use vstd::multiset::group_multiset_axioms;
    broadcast use vstd::seq_lib::to_multiset_remove;
    broadcast use vstd::seq_lib::to_multiset_insert;

    let a = s.update(i, s[j]);
    vstd::seq_lib::lemma_update_is_remove_insert(s, i, s[j]);
    assert(a.to_multiset() =~= s.to_multiset().remove(s[i]).insert(s[j])) by {
        assert(s.remove(i).to_multiset() == s.to_multiset().remove(s[i]));
        assert(s.remove(i).insert(i, s[j]).to_multiset() == s.remove(i).to_multiset().insert(s[j]));
    }
    let b = a.update(j, s[i]);
    vstd::seq_lib::lemma_update_is_remove_insert(a, j, s[i]);
    assert(b.to_multiset() =~= a.to_multiset().remove(a[j]).insert(s[i])) by {
        assert(a.remove(j).to_multiset() == a.to_multiset().remove(a[j]));
        assert(a.remove(j).insert(j, s[i]).to_multiset() == a.remove(j).to_multiset().insert(s[i]));
    }
    s.to_multiset_ensures();
    assert(s.contains(s[i]));
    assert(s.contains(s[j]));
    assert(b.to_multiset() =~= s.to_multiset());
}

/// Reversing the end of a sequence leaves a permutation of it.
pub proof fn lemma_reversed_end_is_permutation<T>(s: Seq<T>, from: int)
    requires
        0 <= from <= s.len(),
    ensures
        is_permutation_of(s.take(from) + s.skip(from).reverse(), s),
{
    vstd::seq_lib::lemma_multiset_commutative(s.take(from), s.skip(from).reverse());
    vstd::seq_lib::lemma_multiset_commutative(s.take(from), s.skip(from));
    s.skip(from).lemma_reverse_to_multiset();
    assert(s.take(from) + s.skip(from) =~= s);
}

/// The step keeps the elements: what follows a permutation is a permutation
/// of the same elements.
pub proof fn lemma_successor_is_permutation<T: PartialOrd>(s: Seq<T>)
    requires
        has_ascent(s),
    ensures
        is_permutation_of(successor(s), s),
        successor(s).len() == s.len(),
{
    lemma_pivot_and_partner(s);
    let k = pivot(s);
    let l = partner(s);
    lemma_exchanged_is_permutation(s, k, l);
    lemma_reversed_end_is_permutation(exchanged(s, k, l), k + 1);
}

/// The step leads upwards: what follows a permutation comes after it in
/// lexicographic order.
pub proof fn lemma_successor_is_greater<T: PartialOrd>(s: Seq<T>)
    requires
        has_ascent(s),
    ensures
        precedes(s, successor(s)),
{
    lemma_successor_elements(s);
    lemma_pivot_and_partner(s);
    assert(precedes_at(s, successor(s), pivot(s)));
}

/// Where a sequence does not rise from `from` on, no element from there on is
/// less than a later one.
pub proof fn lemma_no_ascent_is_descending<T: PartialOrd>(s: Seq<T>, from: int, i: int, j: int)
    requires
        strictly_totally_ordered::<T>(),
        forall|m: int| from <= m ==> !ascent_at(s, m),
        0 <= from <= i <= j < s.len(),
    ensures
        !less(s[i], s[j]),
    decreases j - i,
{
    if i < j {
        lemma_no_ascent_is_descending(s, from, i, j - 1);
        assert(!ascent_at(s, j - 1));
        if less(s[i], s[j]) {
            if s[j - 1] != s[j] {
                assert(less(s[j - 1], s[j]) || less(s[j], s[j - 1]));
                assert(less(s[i], s[j]) && less(s[j], s[j - 1]) ==> less(s[i], s[j - 1]));
            }
        }
    }
}

/// Two permutations of the same elements that begin alike end in
/// permutations of the same elements.
pub proof fn lemma_ends_are_permutations<T>(s: Seq<T>, u: Seq<T>, from: int)
    requires
        is_permutation_of(s, u),
        0 <= from <= s.len(),
        from <= u.len(),
        forall|j: int| 0 <= j < from ==> s[j] == u[j],
    ensures
        is_permutation_of(s.skip(from), u.skip(from)),
        s.len() == u.len(),
{
    broadcast use vstd::multiset::group_multiset_axioms;

    s.to_multiset_ensures();
    u.to_multiset_ensures();
    assert(s.take(from) =~= u.take(from));
    vstd::seq_lib::lemma_multiset_commutative(s.take(from), s.skip(from));
    vstd::seq_lib::lemma_multiset_commutative(u.take(from), u.skip(from));
    assert(s.take(from) + s.skip(from) =~= s);
    assert(u.take(from) + u.skip(from) =~= u);
    let head = s.take(from).to_multiset();
    assert forall|x: T| s.skip(from).to_multiset().count(x) == u.skip(from).to_multiset().count(
        x,
    ) by {
        assert(s.to_multiset().count(x) == head.count(x) + s.skip(from).to_multiset().count(x));
        assert(u.to_multiset().count(x) == head.count(x) + u.skip(from).to_multiset().count(x));
    }
    assert(s.skip(from).to_multiset() =~= u.skip(from).to_multiset());
}

/// An element of a sequence stands somewhere in each of its permutations.
pub proof fn lemma_position_in_permutation<T>(s: Seq<T>, u: Seq<T>, i: int) -> (p: int)
    requires
        is_permutation_of(s, u),
        0 <= i < u.len(),
    ensures
        0 <= p < s.len(),
        s[p] == u[i],
{
    vstd::seq_lib::to_multiset_contains(u, u[i]);
    vstd::seq_lib::to_multiset_contains(s, u[i]);
    assert(u.contains(u[i]));
    assert(s.contains(u[i]));
    choose|p: int| 0 <= p < s.len() && s[p] == u[i]
}

/// Of the permutations of its elements, a descending sequence is the last.
pub proof fn lemma_descending_is_last<T: PartialOrd>(d: Seq<T>, u: Seq<T>)
    requires
        strictly_totally_ordered::<T>(),
        non_increasing(d),
        is_permutation_of(d, u),
    ensures
        !precedes(d, u),
{
    if precedes(d, u) {
        let i = choose|i: int| precedes_at(d, u, i);
        lemma_ends_are_permutations(d, u, i);
        let p = lemma_position_in_permutation(d.skip(i), u.skip(i), 0);
        assert(d[i + p] == u[i]);
        assert(!less(d[i], d[i + p]));
    }
}

/// Of the permutations of its elements, an ascending sequence is the first.
pub proof fn lemma_ascending_is_first<T: PartialOrd>(a: Seq<T>, u: Seq<T>)
    requires
        strictly_totally_ordered::<T>(),
        non_decreasing(a),
        is_permutation_of(a, u),
    ensures
        !precedes(u, a),
{
    if precedes(u, a) {
        let i = choose|i: int| precedes_at(u, a, i);
        lemma_ends_are_permutations(a, u, i);
        let p = lemma_position_in_permutation(a.skip(i), u.skip(i), 0);
        assert(a[i + p] == u[i]);
        assert(!less(a[i + p], a[i]));
    }
}

/// A sequence that rises nowhere is the last permutation of its elements:
/// no permutation of them comes after it.
pub proof fn lemma_without_ascent_is_last<T: PartialOrd>(s: Seq<T>, u: Seq<T>)
    requires
        strictly_totally_ordered::<T>(),
        !has_ascent(s),
        is_permutation_of(s, u),
    ensures
        non_increasing(s),
        !precedes(s, u),
{
    assert forall|i: int, j: int| 0 <= i <= j < s.len() implies !less(
        #[trigger] s[i],
        #[trigger] s[j],
    ) by {
        lemma_no_ascent_is_descending(s, 0, i, j);
    }
    lemma_descending_is_last(s, u);
}

/// Behind the pivot, the permutation that follows is ascending.
pub proof fn lemma_successor_end_is_ascending<T: PartialOrd>(s: Seq<T>)
    requires
        strictly_totally_ordered::<T>(),
        has_ascent(s),
    ensures
        non_decreasing(successor(s).skip(pivot(s) + 1)),
{
    lemma_pivot_and_partner(s);
    lemma_successor_elements(s);
    let k = pivot(s);
    let l = partner(s);
    let n = s.len() as int;
    let e = exchanged(s, k, l);
    let t = successor(s);
    assert forall|a: int, b: int| k < a <= b < n implies !less(e[a], e[b]) by {
        if a < b {
            lemma_no_ascent_is_descending(s, k + 1, a, b);
            if a == l {
                assert(!less(s[k], s[b]));
            } else if b == l {
                lemma_no_ascent_is_descending(s, k + 1, a, l);
                assert(less(s[a], s[k]) && less(s[k], s[l]) ==> less(s[a], s[l]));
            }
        }
    }
    let end = t.skip(k + 1);
    assert forall|i: int, j: int| 0 <= i <= j < end.len() implies !less(
        #[trigger] end[j],
        #[trigger] end[i],
    ) by {
        assert(end[i] == t[k + 1 + i]);
        assert(end[j] == t[k + 1 + j]);
        assert(t[k + 1 + i] == e[n - 1 - i]);
        assert(t[k + 1 + j] == e[n - 1 - j]);
    }
}

/// The step leads to the nearest: no permutation of the same elements lies
/// between a permutation and the one that follows it.
pub proof fn lemma_successor_is_least<T: PartialOrd>(s: Seq<T>, u: Seq<T>)
    requires
        strictly_totally_ordered::<T>(),
        has_ascent(s),
        is_permutation_of(u, s),
        precedes(s, u),
    ensures
        !precedes(u, successor(s)),
{
    lemma_pivot_and_partner(s);
    lemma_successor_elements(s);
    lemma_successor_is_permutation(s);
    let k = pivot(s);
    let l = partner(s);
    let n = s.len() as int;
    let t = successor(s);
    let i = choose|i: int| precedes_at(s, u, i);
    if precedes(u, t) {
        let j = choose|j: int| precedes_at(u, t, j);
        if i < k {
            if j < i {
                assert(u[j] == s[j] && t[j] == s[j]);
            } else if j == i {
                assert(less(s[i], u[i]) && less(u[i], s[i]) ==> less(s[i], s[i]));
            } else {
                assert(u[i] == t[i]);
            }
            assert(false);
        } else if i > k {
            lemma_ends_are_permutations(s, u, k + 1);
            let d = s.skip(k + 1);
            assert forall|a: int, b: int| 0 <= a <= b < d.len() implies !less(
                #[trigger] d[a],
                #[trigger] d[b],
            ) by {
                lemma_no_ascent_is_descending(s, k + 1, k + 1 + a, k + 1 + b);
            }
            assert(precedes_at(d, u.skip(k + 1), i - k - 1));
            lemma_descending_is_last(d, u.skip(k + 1));
            assert(false);
        } else {
            lemma_ends_are_permutations(s, u, k);
            let p = lemma_position_in_permutation(s.skip(k), u.skip(k), 0);
            let q = k + p;
            assert(s[q] == u[k]);
            assert(q != k);
            if q > l {
                assert(!less(s[k], s[q]));
            }
            lemma_no_ascent_is_descending(s, k + 1, q, l);
            assert(!less(u[k], t[k]));
            if j < k {
                assert(u[j] == s[j] && t[j] == s[j]);
                assert(false);
            } else if j == k {
                assert(false);
            } else {
                lemma_ends_are_permutations(t, u, k + 1);
                lemma_successor_end_is_ascending(s);
                assert(precedes_at(u.skip(k + 1), t.skip(k + 1), j - k - 1));
                lemma_ascending_is_first(t.skip(k + 1), u.skip(k + 1));
                assert(false);
            }
        }
    }
}

/// A sequence of fewer than two elements has no permutation that follows.
pub proof fn lemma_short_sequence_is_last<T: PartialOrd>(s: Seq<T>)
    requires
        s.len() < 2,
    ensures
        next_permutation(s).is_none(),
{
}

} // verus!
