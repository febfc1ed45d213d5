//! The kinds of damage filter, in the order they apply.
use vstd::prelude::*;

verus! {

/// What a damage filter does: multiply, then add, then anything else.
#[derive(Debug, Clone, Copy, PartialEq, Eq, PartialOrd, Ord, Hash)]
pub enum FilterKind {
    DamageMul,
    DamageAdd,
    Misc,
}

} // verus!
