//! Registration strategies that align a submitted image with the cover it was
//! marked on before extraction.
use vstd::prelude::*;

verus! {

/// No alignment: the submitted image is taken as is.
pub struct IdentityRegistration;

/// Translation search within `[-max_shift, max_shift]` pixels.
pub struct TranslationRegistration {
    pub max_shift: i32,
}

impl Default for TranslationRegistration {
    fn default() -> (r: Self)
        ensures
            r.max_shift == 32,
    {
        TranslationRegistration { max_shift: 32 }
    }
}

/// Affine-capable registration (the estimator is translation-only).
pub struct AffineRegistration {
    pub max_shift: i32,
}

impl Default for AffineRegistration {
    fn default() -> (r: Self)
        ensures
            r.max_shift == 32,
    {
        AffineRegistration { max_shift: 32 }
    }
}

} // verus!
