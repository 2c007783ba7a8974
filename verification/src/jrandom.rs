//! random

use rand::seq::SliceRandom;
use rand::Rng;
use vstd::prelude::*;

verus! {

/// Returns a random i32 from range `[lo, hi)`, where `lo` is included
/// and `hi` is excluded.
///
/// Similar to Python's `random.randrange()`.
///
/// This is `Rng::gen_range` of rand on `lo..hi`, with the generator of the
/// thread. rand panics on an empty range and gives a number of the range
/// otherwise; which one, nothing says.
#[verifier::external_body]
pub fn randrange(lo: i32, hi: i32) -> (r: i32)
    requires
        lo < hi,
    ensures
        lo <= r < hi,
{
    rand::thread_rng().gen_range(lo..hi)
}

/// Returns a random i32 from range `[lo, hi]`, where both `lo` and `hi` are included.
///
/// Similar to Python's `random.randint()`.
///
/// This is `Rng::gen_range` of rand on `lo..=hi`, with the generator of the
/// thread. rand panics on an empty range and gives a number of the range
/// otherwise; which one, nothing says.
#[verifier::external_body]
pub fn randint(lo: i32, hi: i32) -> (r: i32)
    requires
        lo <= hi,
    ensures
        lo <= r <= hi,
{
    rand::thread_rng().gen_range(lo..=hi)
}

/// Shuffles a vector / array in place.
///
/// Similar to Python's `random.shuffle()`.
///
/// This is `SliceRandom::shuffle` of rand, with the generator of the thread.
/// rand exchanges elements of the slice with each other, so the slice holds
/// afterwards what it held before; in which order, nothing says.
#[verifier::external_body]
pub fn shuffle<T>(v: &mut [T])
    ensures
        final(v)@.to_multiset() == old(v)@.to_multiset(),
        final(v)@.len() == old(v)@.len(),
{
    let mut rng = rand::thread_rng();
    v.shuffle(&mut rng);
}

/// Returns the element of `v` at the position `idx`, where there is one.
pub fn choice_at<T>(v: &[T], idx: i32) -> (r: Option<&T>)
    ensures
        0 <= idx < v@.len() ==> r == Some(&v@[idx as int]),
        !(0 <= idx < v@.len()) ==> r.is_none(),
{
    if idx < 0 {
        return None;
    }
    let i = idx as usize;
    if i < v.len() {
        Some(&v[i])
    } else {
        None
    }
}

/// Chooses a random element from an array / vector.
///
/// Returns `None` if the array / vector is empty.
pub fn choice<T>(v: &[T]) -> (r: Option<&T>)
    requires
        v@.len() <= i32::MAX,
    ensures
        v@.len() == 0 ==> r.is_none(),
        v@.len() > 0 ==> exists|i: int| 0 <= i < v@.len() && r == Some(&#[trigger] v@[i]),
{
    if v.is_empty() {
        return None;
    }
    let idx = randrange(0, v.len() as i32);
    choice_at(v, idx)
}

} // verus!
