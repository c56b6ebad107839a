//! Small containers shared by the metric families.

use vstd::prelude::*;

verus! {

/// A fixed-point value with its ratio and percent views.
#[derive(Clone)]
pub struct Percent<A, B = A, C = B> {
    pub raw: A,
    pub ratio: B,
    pub percent: C,
}

} // verus!
