//! vector

use vstd::laws_cmp::obeys_cmp;
use vstd::prelude::*;
use vstd::std_specs::cmp::OrdSpec;
use vstd::std_specs::cmp::PartialEqIs;
use vstd::std_specs::cmp::PartialEqSpec;
use vstd::std_specs::cmp::PartialOrdIs;
use vstd::std_specs::cmp::PartialOrdSpec;
use std::cmp::Ordering;

verus! {

/// `==` on values of `T` decides what `same` says: the comparison that runs and
/// the one that contracts speak of agree.
pub open spec fn has_spec_eq<T: PartialEq>() -> bool {
    T::obeys_eq_spec()
}

/// `<` and `>` on values of `T` decide what `less` and `greater` say: the
/// comparison that runs and the one that contracts speak of agree.
pub open spec fn has_spec_order<T: PartialOrd>() -> bool {
    T::obeys_partial_cmp_spec()
}

/// The order of `T` is a total order, and `==`, `<` and `cmp` agree on it.
pub open spec fn has_total_order<T: Ord>() -> bool {
    obeys_cmp::<T>()
}

/// `a == b`, as `T` decides it.
pub open spec fn same<T: PartialEq>(a: T, b: T) -> bool {
    a.is_eq(&b)
}

/// `a < b`, as `T` decides it.
pub open spec fn less<T: PartialOrd>(a: T, b: T) -> bool {
    a.is_lt(&b)
}

/// `a > b`, as `T` decides it.
pub open spec fn greater<T: PartialOrd>(a: T, b: T) -> bool {
    a.is_gt(&b)
}

/// `a` and `b` have the same place in the order of `T`.
pub open spec fn ties<T: Ord>(a: T, b: T) -> bool {
    a.cmp_spec(&b) == Ordering::Equal
}

/// No element of `s` is greater than the one that follows it.
pub open spec fn ascending<T: PartialOrd>(s: Seq<T>) -> bool {
    forall|i: int| 0 <= i < s.len() - 1 ==> !greater(#[trigger] s[i], s[i + 1])
}

/// No element of `s` is greater than any later one.
pub open spec fn sorted<T: PartialOrd>(s: Seq<T>) -> bool {
    forall|i: int, j: int| 0 <= i < j < s.len() ==> !greater(#[trigger] s[i], #[trigger] s[j])
}

/// `s` reads the same from both ends.
pub open spec fn palindromic<T: PartialEq>(s: Seq<T>) -> bool {
    forall|i: int| 0 <= i < s.len() - 1 - i ==> same(#[trigger] s[i], s[s.len() - 1 - i])
}

/// `p` sends each position of `before` to the position in `after` that holds the
/// same element, no two positions to one, and keeps elements that tie in the
/// order in which they stood.
pub open spec fn stable_rearrangement<T: Ord>(before: Seq<T>, after: Seq<T>, p: Seq<int>) -> bool {
    &&& p.len() == before.len()
    &&& after.len() == before.len()
    &&& forall|i: int| 0 <= i < p.len() ==> 0 <= #[trigger] p[i] < after.len()
    &&& forall|i: int, j: int| 0 <= i < j < p.len() ==> #[trigger] p[i] != #[trigger] p[j]
    &&& forall|i: int| 0 <= i < p.len() ==> after[#[trigger] p[i]] == before[i]
    &&& forall|i: int, j: int|
        0 <= i < j < p.len() && ties(before[i], before[j]) ==> #[trigger] p[i] < #[trigger] p[j]
}

/// `after` is what a stable sort makes of `before`.
pub open spec fn stably_sorted<T: Ord>(before: Seq<T>, after: Seq<T>) -> bool {
    &&& sorted(after)
    &&& after.to_multiset() == before.to_multiset()
    &&& exists|p: Seq<int>| stable_rearrangement(before, after, p)
}

/// Each element of `copies` is what `clone` made of the element of `items` at its position.
pub open spec fn cloned_from<T: Clone>(items: Seq<T>, copies: Seq<T>) -> bool {
    &&& copies.len() == items.len()
    &&& forall|i: int| 0 <= i < items.len() ==> cloned(#[trigger] items[i], copies[i])
}

/// A sequence in which no element is greater than any later one is one in
/// which none is greater than the next: what `sorted_copy` returns,
/// `is_sorted` finds sorted.
pub proof fn lemma_sorted_is_ascending<T: PartialOrd>(s: Seq<T>)
    requires
        sorted(s),
    ensures
        ascending(s),
{
}

/// References are ordered as what they refer to.
pub proof fn lemma_references_totally_ordered<T: Ord>()
    requires
        has_total_order::<T>(),
    ensures
        has_total_order::<&T>(),
{
    broadcast use vstd::laws_cmp::lemma_ref_obeys_cmp_spec;
}

/// `<[T]>::sort` of std, called on the vector. std documents that the sort is
/// stable, that the slice is in ascending order afterwards, and that it may
/// panic where `Ord` is no total order: the contract asks for a total order and
/// states the three facts, the order of the elements, that none is lost or
/// added, and that elements that tie keep their places among each other.
#[verifier::external_body]
fn sort_in_place<T: Ord>(v: &mut Vec<T>)
    requires
        has_total_order::<T>(),
    ensures
        stably_sorted(old(v)@, final(v)@),
{
    v.sort();
}

/// Returns `true` if the array / vector is sorted.
pub fn is_sorted<T: PartialOrd>(v: &[T]) -> (r: bool)
    ensures
        has_spec_order::<T>() ==> r == ascending(v@),
{
    if v.is_empty() {
        return true;
    }
    let last = v.len() - 1;
    let mut i: usize = 0;
    while i < last
        invariant
            last == v@.len() - 1,
            i <= last,
            has_spec_order::<T>() ==> forall|k: int| 0 <= k < i ==> !greater(#[trigger] v@[k], v@[k + 1]),
        decreases last - i,
    {
        if v[i] > v[i + 1] {
            return false;
        }
        i += 1;
    }
    true
}

/// Returns a sorted vector (of references) of the input array / vector.
///
/// The returned vector contains references.
pub fn sorted_ref<T: Ord>(v: &[T]) -> (r: Vec<&T>)
    requires
        has_total_order::<T>(),
    ensures
        stably_sorted(v@.map_values(|x: T| &x), r@),
{
    let mut copy: Vec<&T> = Vec::new();
    let mut i: usize = 0;
    while i < v.len()
        invariant
            i <= v@.len(),
            copy@ == v@.take(i as int).map_values(|x: T| &x),
        decreases v@.len() - i,
    {
        copy.push(&v[i]);
        assert(v@.take(i + 1) == v@.take(i as int).push(v@[i as int]));
        i += 1;
    }
    assert(v@.take(i as int) == v@);
    proof {
        lemma_references_totally_ordered::<T>();
    }
    sort_in_place(&mut copy);
    copy
}

/// Returns a sorted copy (a vector) of the input array / vector.
///
/// The returned vector contains copies.
pub fn sorted_copy<T: Ord + Clone>(v: &[T]) -> (r: Vec<T>)
    requires
        has_total_order::<T>(),
    ensures
        exists|copies: Seq<T>| cloned_from(v@, copies) && stably_sorted(copies, r@),
{
    let mut copy: Vec<T> = Vec::new();
    let mut i: usize = 0;
    while i < v.len()
        invariant
            i <= v@.len(),
            cloned_from(v@.take(i as int), copy@),
        decreases v@.len() - i,
    {
        let c = v[i].clone();
        copy.push(c);
        i += 1;
    }
    assert(v@.take(i as int) == v@);
    let ghost copies = copy@;
    sort_in_place(&mut copy);
    assert(cloned_from(v@, copies) && stably_sorted(copies, copy@));
    copy
}

/// Returns `true` if the array / vector is palindrome.
pub fn is_palindrome<T: PartialEq>(v: &[T]) -> (r: bool)
    ensures
        has_spec_eq::<T>() ==> r == palindromic(v@),
{
    if v.len() < 2 {
        return true;
    }
    let mut i: usize = 0;
    let mut j: usize = v.len() - 1;
    while i < j
        invariant
            j < v@.len(),
            i + j == v@.len() - 1,
            has_spec_eq::<T>() ==> forall|k: int| 0 <= k < i ==> same(#[trigger] v@[k], v@[v@.len() - 1 - k]),
        decreases j,
    {
        if v[i] != v[j] {
            return false;
        }
        i += 1;
        j -= 1;
    }
    true
}

} // verus!
