//! # permutation
//!
//! Generate the lexicographically next permutation of a sequence
//! of elements.
//!
//! 1. Find the largest index `k` such that `a[k] < a[k + 1]`.
//!    If no such index exists, the permutation is the last permutation.
//! 2. Find the largest index `l` such that `a[k] < a[l]`.
//!    Since `k + 1` is such an index, `l` is well-defined and satisfies `k < l`.
//! 3. Swap `a[k]` with `a[l]`.
//! 4. Reverse the sequence from `a[k + 1]` up to end including the final element.

use crate::jvec::has_spec_order;
use crate::jvec::less;
use vstd::prelude::*;

pub mod count;
pub mod laws;

verus! {

/// `s` rises from position `k` to the next one.
pub open spec fn ascent_at<T: PartialOrd>(s: Seq<T>, k: int) -> bool {
    0 <= k && k + 1 < s.len() && less(s[k], s[k + 1])
}

/// `s` rises somewhere: it is not yet the last permutation of its elements.
pub open spec fn has_ascent<T: PartialOrd>(s: Seq<T>) -> bool {
    exists|k: int| ascent_at(s, k)
}

/// `k` is the last position at which `s` rises.
pub open spec fn is_pivot<T: PartialOrd>(s: Seq<T>, k: int) -> bool {
    ascent_at(s, k) && forall|j: int| k < j ==> !ascent_at(s, j)
}

/// `l` is the last position behind `k` whose element is greater than the one at `k`.
pub open spec fn is_partner<T: PartialOrd>(s: Seq<T>, k: int, l: int) -> bool {
    &&& k < l < s.len()
    &&& less(s[k], s[l])
    &&& forall|j: int| l < j < s.len() ==> !less(s[k], s[j])
}

/// The last position at which `s` rises, where there is one.
pub open spec fn pivot<T: PartialOrd>(s: Seq<T>) -> int {
    choose|k: int| is_pivot(s, k)
}

/// The position that is exchanged with the pivot.
pub open spec fn partner<T: PartialOrd>(s: Seq<T>) -> int {
    choose|l: int| is_partner(s, pivot(s), l)
}

/// `s` with the elements at `i` and `j` exchanged.
pub open spec fn exchanged<T>(s: Seq<T>, i: int, j: int) -> Seq<T> {
    s.update(i, s[j]).update(j, s[i])
}

/// `s` with the part from `i` up to and including `j` in reverse order.
pub open spec fn reversed_between<T>(s: Seq<T>, i: int, j: int) -> Seq<T> {
    if 0 <= i < j < s.len() {
        s.take(i) + s.subrange(i, j + 1).reverse() + s.skip(j + 1)
    } else {
        s
    }
}

/// `s` with the elements at `k` and `l` exchanged and everything behind `k` reversed.
pub open spec fn advanced_at<T>(s: Seq<T>, k: int, l: int) -> Seq<T> {
    let t = exchanged(s, k, l);
    t.take(k + 1) + t.skip(k + 1).reverse()
}

/// The permutation that follows `s`, where `s` rises somewhere.
pub open spec fn successor<T: PartialOrd>(s: Seq<T>) -> Seq<T> {
    advanced_at(s, pivot(s), partner(s))
}

/// The permutation that follows `s` in lexicographic order, if `s` is not the last one.
pub open spec fn next_permutation<T: PartialOrd>(s: Seq<T>) -> Option<Seq<T>> {
    if has_ascent(s) {
        Some(successor(s))
    } else {
        None
    }
}

/// A sequence has at most one pivot.
pub proof fn lemma_pivot_unique<T: PartialOrd>(s: Seq<T>, k: int)
    requires
        is_pivot(s, k),
    ensures
        has_ascent(s),
        pivot(s) == k,
{
    let p = pivot(s);
    assert(is_pivot(s, p));
    if p < k {
        assert(!ascent_at(s, k));
    } else if k < p {
        assert(!ascent_at(s, p));
    }
}

/// A pivot has at most one partner.
pub proof fn lemma_partner_unique<T: PartialOrd>(s: Seq<T>, k: int, l: int)
    requires
        is_pivot(s, k),
        is_partner(s, k, l),
    ensures
        partner(s) == l,
{
    lemma_pivot_unique(s, k);
    let q = partner(s);
    assert(is_partner(s, k, q));
    if q < l {
        assert(!less(s[k], s[l]));
    } else if l < q {
        assert(!less(s[k], s[q]));
    }
}

/// Generates the lexicographically next permutation of an array / vector.
///
/// Returns `false` if the permutation is the last permutation.
///
/// The sequence is modified in place.
pub fn lexicographically_next_permutation<T: PartialOrd + Copy>(a: &mut [T]) -> (found: bool)
    requires
        has_spec_order::<T>(),
    ensures
        found == has_ascent(old(a)@),
        found ==> final(a)@ == successor(old(a)@),
        !found ==> final(a)@ == old(a)@,
        !found ==> next_permutation(final(a)@).is_none(),
        old(a)@.len() < 2 ==> !found,
        next_permutation(old(a)@) == (if found {
            Some(final(a)@)
        } else {
            None
        }),
{
    let n = a.len();
    if n < 2 {
        return false;
    }
    let mut i: usize = n - 2;
    loop
        invariant_except_break
            forall|j: int| i < j ==> !ascent_at(a@, j),
        invariant
            has_spec_order::<T>(),
            a@ == old(a)@,
            n == a@.len(),
            i + 1 < n,
        ensures
            is_pivot(a@, i as int),
        decreases i,
    {
        if a[i] < a[i + 1] {
            break ;
        }
        if i == 0 {
            return false;
        }
        i -= 1;
    }
    let mut j: usize = n - 1;
    while !(a[i] < a[j])
        invariant
            has_spec_order::<T>(),
            a@ == old(a)@,
            n == a@.len(),
            i < j < n,
            is_pivot(a@, i as int),
            forall|m: int| j < m < n ==> !less(a@[i as int], a@[m]),
        decreases j,
    {
        j -= 1;
    }
    proof {
        lemma_partner_unique(a@, i as int, j as int);
    }
    let x = a[i];
    let y = a[j];
    a[i] = y;
    a[j] = x;
    reverse(a, i + 1, n - 1);
    assert(a@ =~= advanced_at(old(a)@, i as int, j as int));
    true
}

/// Reverses the part of `a` from position `from` up to and including position `to`.
pub(crate) fn reverse<T: Copy>(a: &mut [T], from: usize, to: usize)
    requires
        from < to ==> to < old(a)@.len(),
    ensures
        final(a)@ == reversed_between(old(a)@, from as int, to as int),
{
    let mut i = from;
    let mut j = to;
    while i < j
        invariant
            a@.len() == old(a)@.len(),
            from < to ==> to < a@.len(),
            from <= i,
            j <= to,
            i + j == from + to,
            forall|m: int| 0 <= m < from || to < m < a@.len() ==> a@[m] == old(a)@[m],
            forall|m: int| i <= m <= j ==> a@[m] == old(a)@[m],
            forall|m: int| from <= m < i || j < m <= to ==> a@[m] == old(a)@[from + to - m],
        decreases j,
    {
        let x = a[i];
        let y = a[j];
        a[i] = y;
        a[j] = x;
        i += 1;
        j -= 1;
    }
    assert(a@ =~= reversed_between(old(a)@, from as int, to as int));
}

} // verus!
