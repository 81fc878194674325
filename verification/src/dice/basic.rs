//! The standard dice under their spelled-out names.

use crate::dice::standard::{n_sided_die, standard_die};
use crate::dice::Die;
use vstd::prelude::*;

verus! {

/// A standard die of four sides.
pub fn four_sided() -> (r: Die)
    ensures
        r@ == standard_die(4),
{
    n_sided_die(4)
}

/// A standard die of six sides.
pub fn six_sided() -> (r: Die)
    ensures
        r@ == standard_die(6),
{
    n_sided_die(6)
}

/// A standard die of eight sides.
pub fn eight_sided() -> (r: Die)
    ensures
        r@ == standard_die(8),
{
    n_sided_die(8)
}

/// A standard die of ten sides.
pub fn ten_sided() -> (r: Die)
    ensures
        r@ == standard_die(10),
{
    n_sided_die(10)
}

/// A standard die of twelve sides.
pub fn twelve_sided() -> (r: Die)
    ensures
        r@ == standard_die(12),
{
    n_sided_die(12)
}

/// A standard die of twenty sides.
pub fn twenty_sided() -> (r: Die)
    ensures
        r@ == standard_die(20),
{
    n_sided_die(20)
}

} // verus!
