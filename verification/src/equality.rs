//! Equality of components by the specification of their `==`.
use vstd::prelude::*;
use vstd::std_specs::cmp::PartialEqSpec;

verus! {

/// The components' `==` follows its specification.
pub open spec fn equality_obeyed<E: PartialEq>() -> bool {
    E::obeys_eq_spec()
}

/// Two components are equal by the specification of their `==`.
pub open spec fn same_value<E: PartialEq>(a: E, b: E) -> bool {
    a.eq_spec(&b)
}

} // verus!
