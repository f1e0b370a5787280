//! Support for per-particle attribute observers.
//!
//! Attribute observers attach external per-particle values that are
//! updated when particles collide or on each simulation step.  The
//! observers themselves live outside the verified core; the simulator
//! reports each step's resolved collisions so they can be applied.

use vstd::prelude::*;

verus! {

/// Call the function on the pair in both orders.
///
/// Collision observers are often symmetric in the two particles; this
/// helper invokes one update for each orientation of the pair.
pub fn symmetric<F: Fn(usize, usize)>(i: usize, j: usize, f: F)
    requires
        f.requires((i, j)),
        f.requires((j, i)),
{
    f(i, j);
    f(j, i);
}

} // verus!
