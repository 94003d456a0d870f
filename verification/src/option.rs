//! A small helper on `Option`.

use vstd::prelude::*;

verus! {

/// Clones the value held by `x`, leaving `x` itself in place.
///
/// The caller must know that `x` holds a value.
pub fn unwrap_clone<T: Clone>(x: &Option<T>) -> (value: T)
    requires
        x is Some,
    ensures
        cloned::<T>(x->0, value),
{
    match x {
        Some(inner) => inner.clone(),
        None => vstd::pervasive::unreached(),
    }
}

} // verus!
