//! The surface-response records the integrator consumes. A material maps a
//! hit to an optional reflected ray with an attenuation color, plus an
//! emission color; both the color and ray representations are the caller's.

use vstd::prelude::*;

verus! {

pub struct Reflection<C, R> {
    pub ray: R,
    pub attenuation: C,
}

pub struct MaterialHitResult<C, R> {
    pub reflection: Option<Reflection<C, R>>,
    pub emission: C,
}

impl<C, R> MaterialHitResult<C, R> {
    /// A response that scatters: a new ray and its attenuation, with the
    /// given no-emission color.
    pub fn reflecting(ray: R, attenuation: C, no_emission: C) -> (r: MaterialHitResult<C, R>)
        ensures
            r.reflection matches Some(refl) && refl.ray == ray && refl.attenuation == attenuation,
            r.emission == no_emission,
    {
        MaterialHitResult {
            reflection: Some(Reflection { ray, attenuation }),
            emission: no_emission,
        }
    }

    /// A response that only emits: the path ends here.
    pub fn emitting(emission: C) -> (r: MaterialHitResult<C, R>)
        ensures
            r.reflection is None,
            r.emission == emission,
    {
        MaterialHitResult { reflection: None, emission }
    }
}

} // verus!
