//! Counting the steps: each permutation of distinct elements has a rank, the
//! number of permutations that come before it, and the step from one
//! permutation to the next raises the rank by one. So the steps from the
//! ascending order pass through as many permutations as the factorial of the
//! length says, each once, and end at the descending order.

use crate::jmath::factorial_of;
use crate::jpermutation::advanced_at;
use crate::jpermutation::ascent_at;
use crate::jpermutation::exchanged;
use crate::jpermutation::has_ascent;
use crate::jpermutation::is_partner;
use crate::jpermutation::is_pivot;
use crate::jpermutation::laws::non_decreasing;
use crate::jpermutation::laws::non_increasing;
use crate::jpermutation::laws::is_permutation_of;
use crate::jpermutation::laws::lemma_ends_are_permutations;
use crate::jpermutation::laws::lemma_no_ascent_is_descending;
use crate::jpermutation::laws::lemma_pivot_and_partner;
use crate::jpermutation::laws::lemma_position_in_permutation;
use crate::jpermutation::laws::lemma_successor_elements;
use crate::jpermutation::laws::lemma_successor_end_is_ascending;
use crate::jpermutation::laws::lemma_successor_is_greater;
use crate::jpermutation::laws::lemma_successor_is_permutation;
use crate::jpermutation::laws::lemma_without_ascent_is_last;
use crate::jpermutation::laws::precedes;
use crate::jpermutation::laws::precedes_at;
use crate::jpermutation::laws::strictly_totally_ordered;
use crate::jpermutation::lemma_partner_unique;
use crate::jpermutation::lemma_pivot_unique;
use crate::jpermutation::next_permutation;
use crate::jpermutation::partner;
use crate::jpermutation::pivot;
use crate::jpermutation::successor;
use crate::jvec::less;
use vstd::prelude::*;

verus! {

/// 1 where `b` holds, else 0.
pub open spec fn one_if(b: bool) -> nat {
    if b {
        1
    } else {
        0
    }
}

/// The number of elements of `r` that are less than `x`.
pub open spec fn count_less<T: PartialOrd>(x: T, r: Seq<T>) -> nat
    decreases r.len(),
{
    if r.len() == 0 {
        0
    } else {
        count_less(x, r.drop_last()) + one_if(less(r.last(), x))
    }
}

/// The rank of a permutation: for each element the number of later elements
/// that are less, weighted by the number of ways to arrange what follows it.
/// For distinct elements this is the number of permutations that come
/// before it in lexicographic order.
pub open spec fn rank<T: PartialOrd>(s: Seq<T>) -> nat
    decreases s.len(),
{
    if s.len() == 0 {
        0
    } else {
        count_less(s[0], s.skip(1)) * factorial_of((s.len() - 1) as nat) + rank(s.skip(1))
    }
}

/// What `steps` steps make of `s`: `None` where the last permutation was
/// reached before.
pub open spec fn after_steps<T: PartialOrd>(s: Seq<T>, steps: nat) -> Option<Seq<T>>
    decreases steps,
{
    if steps == 0 {
        Some(s)
    } else {
        match after_steps(s, (steps - 1) as nat) {
            Some(t) => next_permutation(t),
            None => None,
        }
    }
}

/// No more elements are less than `x` than there are elements.
pub proof fn lemma_count_less_bound<T: PartialOrd>(x: T, r: Seq<T>)
    ensures
        count_less(x, r) <= r.len(),
    decreases r.len(),
{
    if r.len() > 0 {
        lemma_count_less_bound(x, r.drop_last());
    }
}

/// Taking one element out lowers the count by one where the element is less than `x`.
pub proof fn lemma_count_less_remove<T: PartialOrd>(x: T, r: Seq<T>, p: int)
    requires
        0 <= p < r.len(),
    ensures
        count_less(x, r) == count_less(x, r.remove(p)) + one_if(less(r[p], x)),
    decreases r.len(),
{
    if p == r.len() - 1 {
        assert(r.remove(p) =~= r.drop_last());
    } else {
        let front = r.drop_last();
        lemma_count_less_remove(x, front, p);
        assert(r.remove(p).drop_last() =~= front.remove(p));
        assert(r.remove(p).last() == r.last());
    }
}

/// The count does not depend on the order of the elements.
pub proof fn lemma_count_less_permutation<T: PartialOrd>(x: T, a: Seq<T>, b: Seq<T>)
    requires
        is_permutation_of(a, b),
    ensures
        count_less(x, a) == count_less(x, b),
    decreases a.len(),
{
    vstd::seq_lib::to_multiset_len(a);
    vstd::seq_lib::to_multiset_len(b);
    if a.len() > 0 {
        let last = a.len() - 1;
        let p = lemma_position_in_permutation(b, a, last);
        vstd::seq_lib::to_multiset_remove(a, last);
        vstd::seq_lib::to_multiset_remove(b, p);
        assert(a.remove(last) =~= a.drop_last());
        lemma_count_less_permutation(x, a.drop_last(), b.remove(p));
        lemma_count_less_remove(x, b, p);
    }
}

/// Two values that the same elements are less than have the same count.
pub proof fn lemma_count_less_alike<T: PartialOrd>(x: T, y: T, r: Seq<T>)
    requires
        forall|i: int| 0 <= i < r.len() ==> less(#[trigger] r[i], x) == less(r[i], y),
    ensures
        count_less(x, r) == count_less(y, r),
    decreases r.len(),
{
    if r.len() > 0 {
        let front = r.drop_last();
        assert forall|i: int| 0 <= i < front.len() implies less(#[trigger] front[i], x) == less(
            front[i],
            y,
        ) by {
            assert(front[i] == r[i]);
        }
        lemma_count_less_alike(x, y, front);
        assert(r.last() == r[r.len() - 1]);
    }
}

/// Where no element is less than `x`, the count is 0.
pub proof fn lemma_count_less_none<T: PartialOrd>(x: T, r: Seq<T>)
    requires
        forall|i: int| 0 <= i < r.len() ==> !less(#[trigger] r[i], x),
    ensures
        count_less(x, r) == 0,
    decreases r.len(),
{
    if r.len() > 0 {
        let front = r.drop_last();
        assert forall|i: int| 0 <= i < front.len() implies !less(#[trigger] front[i], x) by {
            assert(front[i] == r[i]);
        }
        lemma_count_less_none(x, front);
        assert(r.last() == r[r.len() - 1]);
    }
}

/// Where every element is less than `x`, the count is the number of elements.
pub proof fn lemma_count_less_all<T: PartialOrd>(x: T, r: Seq<T>)
    requires
        forall|i: int| 0 <= i < r.len() ==> less(#[trigger] r[i], x),
    ensures
        count_less(x, r) == r.len(),
    decreases r.len(),
{
    if r.len() > 0 {
        let front = r.drop_last();
        assert forall|i: int| 0 <= i < front.len() implies less(#[trigger] front[i], x) by {
            assert(front[i] == r[i]);
        }
        lemma_count_less_all(x, front);
        assert(r.last() == r[r.len() - 1]);
    }
}

/// A factorial is its number times the factorial before it, and at least 1.
proof fn lemma_factorial_unfold(n: nat)
    requires
        n > 0,
    ensures
        factorial_of(n) == n * factorial_of((n - 1) as nat),
        factorial_of((n - 1) as nat) >= 1,
{
    crate::jmath::lemma_factorial_grows(0, (n - 1) as nat);
}

/// A rank is less than the number of permutations.
pub proof fn lemma_rank_bound<T: PartialOrd>(s: Seq<T>)
    ensures
        rank(s) < factorial_of(s.len()),
    decreases s.len(),
{
    if s.len() > 0 {
        let n = s.len();
        let m = (n - 1) as nat;
        let c = count_less(s[0], s.skip(1));
        let f = factorial_of(m);
        lemma_rank_bound(s.skip(1));
        lemma_count_less_bound(s[0], s.skip(1));
        lemma_factorial_unfold(n);
        assert(c * f + rank(s.skip(1)) < n * f) by (nonlinear_arith)
            requires
                c <= m,
                n == m + 1,
                rank(s.skip(1)) < f,
        ;
    }
}

/// The descending order of distinct elements has the greatest rank.
pub proof fn lemma_rank_of_descending<T: PartialOrd>(s: Seq<T>)
    requires
        strictly_totally_ordered::<T>(),
        non_increasing(s),
        s.no_duplicates(),
    ensures
        rank(s) + 1 == factorial_of(s.len()),
    decreases s.len(),
{
    if s.len() > 0 {
        let n = s.len();
        let m = (n - 1) as nat;
        let rest = s.skip(1);
        let f = factorial_of(m);
        assert forall|i: int, j: int| 0 <= i <= j < rest.len() implies !less(
            #[trigger] rest[i],
            #[trigger] rest[j],
        ) by {
            assert(rest[i] == s[i + 1] && rest[j] == s[j + 1]);
        }
        assert forall|i: int, j: int|
            0 <= i < rest.len() && 0 <= j < rest.len() && i != j implies rest[i] != rest[j] by {
            assert(rest[i] == s[i + 1] && rest[j] == s[j + 1]);
        }
        lemma_rank_of_descending(rest);
        assert forall|i: int| 0 <= i < rest.len() implies less(#[trigger] rest[i], s[0]) by {
            assert(rest[i] == s[i + 1]);
            assert(s[i + 1] != s[0]);
            assert(!less(s[0], s[i + 1]));
            assert(less(s[0], s[i + 1]) || less(s[i + 1], s[0]));
        }
        lemma_count_less_all(s[0], rest);
        lemma_factorial_unfold(n);
        let c = count_less(s[0], rest);
        assert(c * f + rank(rest) + 1 == n * f) by (nonlinear_arith)
            requires
                c == m,
                n == m + 1,
                rank(rest) + 1 == f,
        ;
    }
}

/// The ascending order has the rank 0.
pub proof fn lemma_rank_of_ascending<T: PartialOrd>(s: Seq<T>)
    requires
        non_decreasing(s),
    ensures
        rank(s) == 0,
    decreases s.len(),
{
    if s.len() > 0 {
        let rest = s.skip(1);
        assert forall|i: int, j: int| 0 <= i <= j < rest.len() implies !less(
            #[trigger] rest[j],
            #[trigger] rest[i],
        ) by {
            assert(rest[i] == s[i + 1] && rest[j] == s[j + 1]);
        }
        lemma_rank_of_ascending(rest);
        assert forall|i: int| 0 <= i < rest.len() implies !less(#[trigger] rest[i], s[0]) by {
            assert(rest[i] == s[i + 1]);
        }
        lemma_count_less_none(s[0], rest);
        let f = factorial_of((s.len() - 1) as nat);
        assert(0 * f == 0) by (nonlinear_arith);
    }
}

/// A permutation of distinct elements has distinct elements.
pub proof fn lemma_permutation_keeps_distinct<T>(s: Seq<T>, t: Seq<T>)
    requires
        is_permutation_of(s, t),
        s.no_duplicates(),
    ensures
        t.no_duplicates(),
{
    s.lemma_multiset_has_no_duplicates();
    t.lemma_multiset_has_no_duplicates_conv();
}

/// Where the pivot is not the first position, the step leaves the first
/// element and takes the rest one step on.
pub proof fn lemma_successor_of_rest<T: PartialOrd>(s: Seq<T>)
    requires
        has_ascent(s),
        pivot(s) > 0,
    ensures
        has_ascent(s.skip(1)),
        successor(s.skip(1)) == successor(s).skip(1),
        successor(s)[0] == s[0],
        successor(s).len() == s.len(),
{
    lemma_pivot_and_partner(s);
    lemma_successor_elements(s);
    let k = pivot(s);
    let l = partner(s);
    let rest = s.skip(1);
    assert(rest[k - 1] == s[k] && rest[k] == s[k + 1]);
    assert(ascent_at(rest, k - 1));
    assert forall|j: int| k - 1 < j implies !ascent_at(rest, j) by {
        if 0 <= j && j + 1 < rest.len() {
            assert(rest[j] == s[j + 1] && rest[j + 1] == s[j + 2]);
            assert(!ascent_at(s, j + 1));
        }
    }
    assert(is_pivot(rest, k - 1));
    lemma_pivot_unique(rest, k - 1);
    assert(rest[l - 1] == s[l]);
    let at_pivot = rest[k - 1];
    assert forall|j: int| l - 1 < j < rest.len() implies !less(at_pivot, rest[j]) by {
        assert(rest[j] == s[j + 1]);
    }
    assert(is_partner(rest, k - 1, l - 1));
    lemma_partner_unique(rest, k - 1, l - 1);
    let e = exchanged(s, k, l);
    let f = exchanged(rest, k - 1, l - 1);
    assert(f =~= e.skip(1));
    assert(advanced_at(rest, k - 1, l - 1) =~= advanced_at(s, k, l).skip(1));
}

/// The step raises the rank of a permutation of distinct elements by one.
pub proof fn lemma_rank_of_successor<T: PartialOrd>(s: Seq<T>)
    requires
        strictly_totally_ordered::<T>(),
        s.no_duplicates(),
        has_ascent(s),
    ensures
        rank(successor(s)) == rank(s) + 1,
    decreases s.len(),
{
    lemma_pivot_and_partner(s);
    lemma_successor_elements(s);
    lemma_successor_is_permutation(s);
    let k = pivot(s);
    let l = partner(s);
    let n = s.len();
    let m = (n - 1) as nat;
    let f = factorial_of(m);
    let t = successor(s);
    let rest = s.skip(1);
    assert forall|i: int, j: int|
        0 <= i < rest.len() && 0 <= j < rest.len() && i != j implies rest[i] != rest[j] by {
        assert(rest[i] == s[i + 1] && rest[j] == s[j + 1]);
    }
    if k > 0 {
        lemma_successor_of_rest(s);
        lemma_rank_of_successor(rest);
        lemma_successor_is_permutation(rest);
        lemma_count_less_permutation(s[0], t.skip(1), rest);
    } else {
        // the rest is in descending order, and the step turns it round
        assert forall|i: int, j: int| 0 <= i <= j < rest.len() implies !less(
            #[trigger] rest[i],
            #[trigger] rest[j],
        ) by {
            assert(rest[i] == s[i + 1] && rest[j] == s[j + 1]);
            lemma_no_ascent_is_descending(s, 1, i + 1, j + 1);
        }
        lemma_rank_of_descending(rest);
        lemma_successor_end_is_ascending(s);
        lemma_rank_of_ascending(t.skip(1));
        let x = s[0];
        let y = s[l];
        // what follows the first element afterwards holds `x` in place of `y`
        let changed = rest.update(l - 1, x);
        assert(changed =~= exchanged(s, 0, l).skip(1));
        assert(is_permutation_of(t.skip(1), changed)) by {
            let e = exchanged(s, 0, l);
            crate::jpermutation::laws::lemma_reversed_end_is_permutation(e, 1);
            assert(t =~= e.take(1) + e.skip(1).reverse());
            lemma_ends_are_permutations(t, e, 1);
        }
        lemma_count_less_permutation(y, t.skip(1), changed);
        lemma_count_less_remove(y, changed, l - 1);
        lemma_count_less_remove(x, rest, l - 1);
        let others = rest.remove(l - 1);
        assert(changed.remove(l - 1) =~= others);
        assert(rest[l - 1] == y);
        assert(changed[l - 1] == x);
        assert(less(x, y));
        assert(!less(y, x)) by {
            assert(less(x, y) && less(y, x) ==> less(x, x));
        }
        assert forall|i: int| 0 <= i < others.len() implies less(#[trigger] others[i], y) == less(
            others[i],
            x,
        ) by {
            let j = if i < l - 1 {
                i + 1
            } else {
                i + 2
            };
            assert(others[i] == s[j]);
            if j < l {
                lemma_no_ascent_is_descending(s, 1, j, l);
                assert(less(s[j], x) && less(x, y) ==> less(s[j], y));
            } else {
                assert(!less(x, s[j]));
                assert(s[j] != s[0]);
                assert(less(s[0], s[j]) || less(s[j], s[0]));
                assert(less(s[j], x) && less(x, y) ==> less(s[j], y));
            }
        }
        lemma_count_less_alike(y, x, others);
        let c = count_less(x, rest);
        assert(count_less(y, t.skip(1)) == c + 1);
        assert(t[0] == y);
        assert((c + 1) * f + 0 == c * f + (f - 1) + 1) by (nonlinear_arith);
    }
}

/// A permutation of distinct elements rises somewhere if and only if its
/// rank is not the greatest.
pub proof fn lemma_ascent_by_rank<T: PartialOrd>(s: Seq<T>)
    requires
        strictly_totally_ordered::<T>(),
        s.no_duplicates(),
    ensures
        has_ascent(s) <==> rank(s) + 1 < factorial_of(s.len()),
{
    lemma_rank_bound(s);
    if has_ascent(s) {
        lemma_rank_of_successor(s);
        lemma_successor_is_permutation(s);
        lemma_rank_bound(successor(s));
    } else {
        lemma_without_ascent_is_last(s, s);
        lemma_rank_of_descending(s);
    }
}

/// The steps count the ranks: from a permutation of distinct elements,
/// `steps` steps lead to the permutation whose rank is greater by `steps`,
/// as long as there is such a rank, and to none after that.
pub proof fn lemma_steps_count_ranks<T: PartialOrd>(s: Seq<T>, steps: nat)
    requires
        strictly_totally_ordered::<T>(),
        s.no_duplicates(),
    ensures
        rank(s) + steps < factorial_of(s.len()) ==> after_steps(s, steps).is_some()
            && is_permutation_of(after_steps(s, steps).unwrap(), s) && after_steps(
            s,
            steps,
        ).unwrap().no_duplicates() && rank(after_steps(s, steps).unwrap()) == rank(s) + steps,
        rank(s) + steps >= factorial_of(s.len()) ==> after_steps(s, steps).is_none(),
    decreases steps,
{
    lemma_rank_bound(s);
    if steps > 0 {
        let before = (steps - 1) as nat;
        lemma_steps_count_ranks(s, before);
        if rank(s) + before < factorial_of(s.len()) {
            let t = after_steps(s, before).unwrap();
            vstd::seq_lib::to_multiset_len(s);
            vstd::seq_lib::to_multiset_len(t);
            lemma_ascent_by_rank(t);
            if has_ascent(t) {
                lemma_rank_of_successor(t);
                lemma_successor_is_permutation(t);
                lemma_permutation_keeps_distinct(t, successor(t));
            }
        }
    }
}

/// Once the last permutation is reached, no number of further steps leads
/// anywhere: each of them finds the sequence as it was and reports the same.
pub proof fn lemma_exhaustion_is_idempotent<T: PartialOrd>(s: Seq<T>, steps: nat)
    requires
        next_permutation(s).is_none(),
        steps >= 1,
    ensures
        !has_ascent(s),
        after_steps(s, steps).is_none(),
    decreases steps,
{
    if steps > 1 {
        lemma_exhaustion_is_idempotent(s, (steps - 1) as nat);
    } else {
        assert(after_steps(s, 0) == Some(s));
    }
}

/// The lexicographic order passes on: what comes before something that comes
/// before a third comes before the third.
pub proof fn lemma_precedes_is_transitive<T: PartialOrd>(a: Seq<T>, b: Seq<T>, c: Seq<T>)
    requires
        strictly_totally_ordered::<T>(),
        precedes(a, b),
        precedes(b, c),
    ensures
        precedes(a, c),
{
    let i = choose|i: int| precedes_at(a, b, i);
    let j = choose|j: int| precedes_at(b, c, j);
    if i < j {
        assert(precedes_at(a, c, i));
    } else if j < i {
        assert(precedes_at(a, c, j));
    } else {
        assert(less(a[i], b[i]) && less(b[i], c[i]) ==> less(a[i], c[i]));
        assert(precedes_at(a, c, i));
    }
}

/// What comes before a sequence is not that sequence.
pub proof fn lemma_precedes_is_irreflexive<T: PartialOrd>(a: Seq<T>, b: Seq<T>)
    requires
        strictly_totally_ordered::<T>(),
        precedes(a, b),
    ensures
        a != b,
{
    let i = choose|i: int| precedes_at(a, b, i);
    assert(less(a[i], b[i]));
}

/// The steps lead upwards: of two numbers of steps that both lead
/// somewhere, the greater leads to the later permutation.
pub proof fn lemma_steps_lead_upwards<T: PartialOrd>(s: Seq<T>, fewer: nat, more: nat)
    requires
        strictly_totally_ordered::<T>(),
        fewer < more,
        after_steps(s, more).is_some(),
    ensures
        after_steps(s, fewer).is_some(),
        precedes(after_steps(s, fewer).unwrap(), after_steps(s, more).unwrap()),
    decreases more,
{
    let before = (more - 1) as nat;
    let t = after_steps(s, before).unwrap();
    assert(after_steps(s, before).is_some());
    assert(has_ascent(t));
    lemma_successor_is_greater(t);
    if fewer < before {
        lemma_steps_lead_upwards(s, fewer, before);
        lemma_precedes_is_transitive(after_steps(s, fewer).unwrap(), t, successor(t));
    }
}

/// Starting from the ascending order of distinct elements, the steps pass
/// through as many permutations as the factorial of the length says, the
/// starting order counted: after `i` steps, for each `i` below that number,
/// stands the permutation of rank `i`, later ones after earlier ones in
/// lexicographic order, so that no two are equal. The last of them is the
/// descending order, from which no step leads on.
pub proof fn lemma_steps_exhaust_permutations<T: PartialOrd>(s: Seq<T>, i: nat, j: nat)
    requires
        strictly_totally_ordered::<T>(),
        s.no_duplicates(),
        non_decreasing(s),
    ensures
        i < factorial_of(s.len()) ==> after_steps(s, i).is_some() && is_permutation_of(
            after_steps(s, i).unwrap(),
            s,
        ) && rank(after_steps(s, i).unwrap()) == i,
        i >= factorial_of(s.len()) ==> after_steps(s, i).is_none(),
        i < j < factorial_of(s.len()) ==> precedes(
            after_steps(s, i).unwrap(),
            after_steps(s, j).unwrap(),
        ) && after_steps(s, i).unwrap() != after_steps(s, j).unwrap(),
        i + 1 == factorial_of(s.len()) ==> non_increasing(after_steps(s, i).unwrap())
            && next_permutation(after_steps(s, i).unwrap()).is_none(),
{
    lemma_rank_of_ascending(s);
    lemma_steps_count_ranks(s, i);
    lemma_steps_count_ranks(s, j);
    if i < j < factorial_of(s.len()) {
        lemma_steps_lead_upwards(s, i, j);
        lemma_precedes_is_irreflexive(after_steps(s, i).unwrap(), after_steps(s, j).unwrap());
    }
    if i + 1 == factorial_of(s.len()) {
        let last = after_steps(s, i).unwrap();
        lemma_ascent_by_rank(last);
        vstd::seq_lib::to_multiset_len(s);
        vstd::seq_lib::to_multiset_len(last);
        lemma_without_ascent_is_last(last, last);
    }
}

} // verus!
