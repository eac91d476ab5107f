//! Values that equal the default of their type.

use vstd::prelude::*;
use vstd::std_specs::cmp::PartialEqSpec;

verus! {

/// Whether a value equals the default of its type.
pub fn is_default<D: Default + PartialEq>(t: &D) -> (r: bool)
    ensures
        D::obeys_eq_spec() ==> exists|d: D| call_ensures(D::default, (), d) && r == t.eq_spec(&d),
{
    let d = D::default();
    t == &d
}

} // verus!
