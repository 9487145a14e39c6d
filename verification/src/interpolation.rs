//! Interpolation kinds.

use vstd::prelude::*;
use vstd::std_specs::convert::FromSpecImpl;

verus! {

/// The curve that leads from one key to the next.
///
/// With `t` the phase between the two keys, in `[0, 1]`, the eased phase is
/// `0` for `Step`, `t` for `Linear`, `t * t * (3 - 2 * t)` for `Smooth` and
/// `t * t` for `Ramp`.
#[derive(Debug, Clone, Copy, PartialEq, Eq, Structural)]
pub enum Interpolation {
    Step,
    Linear,
    Smooth,
    Ramp,
}

/// The kind that a byte on the wire stands for. Bytes that name no kind
/// stand for `Step`.
pub open spec fn interpolation_of(raw: u8) -> Interpolation {
    if raw == 1 {
        Interpolation::Linear
    } else if raw == 2 {
        Interpolation::Smooth
    } else if raw == 3 {
        Interpolation::Ramp
    } else {
        Interpolation::Step
    }
}

/// The byte that stands for a kind on the wire.
pub open spec fn code_of(kind: Interpolation) -> u8 {
    match kind {
        Interpolation::Step => 0,
        Interpolation::Linear => 1,
        Interpolation::Smooth => 2,
        Interpolation::Ramp => 3,
    }
}

impl From<u8> for Interpolation {
    fn from(raw: u8) -> (kind: Interpolation) {
        match raw {
            0 => Interpolation::Step,
            1 => Interpolation::Linear,
            2 => Interpolation::Smooth,
            3 => Interpolation::Ramp,
            _ => Interpolation::Step,
        }
    }
}

impl FromSpecImpl<u8> for Interpolation {
    open spec fn obeys_from_spec() -> bool {
        true
    }

    open spec fn from_spec(raw: u8) -> Interpolation {
        interpolation_of(raw)
    }
}

impl Interpolation {
    /// The byte that stands for this kind on the wire.
    pub fn code(&self) -> (raw: u8)
        ensures
            raw == code_of(*self),
            raw <= 3,
    {
        match *self {
            Interpolation::Step => 0,
            Interpolation::Linear => 1,
            Interpolation::Smooth => 2,
            Interpolation::Ramp => 3,
        }
    }
}

/// A kind survives the trip through its wire byte.
pub proof fn lemma_code_roundtrip(kind: Interpolation)
    ensures
        interpolation_of(code_of(kind)) == kind,
{
}

/// Only the bytes 1, 2 and 3 decode to a kind other than `Step`.
pub proof fn lemma_unknown_code_is_step(raw: u8)
    ensures
        (raw == 0 || raw > 3) ==> interpolation_of(raw) == Interpolation::Step,
        interpolation_of(raw) != Interpolation::Step ==> code_of(interpolation_of(raw)) == raw,
{
}

} // verus!
