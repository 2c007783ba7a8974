//! jpy

use vstd::prelude::*;

verus! {

/// Negates a logical expression.
///
/// If you miss `not` from Python.
pub fn not(v: bool) -> (r: bool)
    ensures
        r == !v,
{
    !v
}

} // verus!
