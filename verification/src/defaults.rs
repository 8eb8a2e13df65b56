//! The parameter values the pipeline is tuned to, in one place.
//!
//! A run that touches none of them reproduces the rated results, so both front ends read
//! them from here.

use vstd::prelude::*;
use crate::fusion::FusionKind;
use crate::pipeline::Method;
use crate::weights::GuideSpace;

verus! {

/// Pyramid level for phase correlation.
pub const REGISTRATION_LEVEL: u32 = 3;

/// Window radius for the windowed-Laplacian focus measure.
pub const FOCUS_RADIUS: u32 = 4;

/// Guided-filter radius for weight refinement.
pub const GUIDE_RADIUS: u32 = 4;

/// Guided-filter regularization, as one part in this many.
pub const GUIDE_EPSILON_PARTS: i64 = 10000;

/// Tone space the guided filter's guide image is measured in.
pub const GUIDE_SPACE: GuideSpace = GuideSpace::Perceptual;

/// Salience window radius, read by the selection rule alone.
pub const SALIENCE_RADIUS: u32 = 2;

/// How pyramid levels are combined.
pub open spec fn default_fusion() -> FusionKind {
    FusionKind::Select { salience_radius: SALIENCE_RADIUS }
}

/// How pyramid levels are combined.
pub fn fusion() -> (r: FusionKind)
    ensures
        r == default_fusion(),
{
    FusionKind::Select { salience_radius: SALIENCE_RADIUS }
}

/// Size at which the pyramid stops halving. Both methods read it, so that the two are
/// comparable at matched depth.
pub const PYRAMID_FLOOR: u32 = 32;

/// Which pipeline shape runs by default.
pub fn method() -> (r: Method)
    ensures
        r == (Method::Local { fusion: default_fusion() }),
{
    Method::Local { fusion: fusion() }
}

/// How many of a coefficient's eight neighbours must agree before consistency
/// verification overrides its selected frame.
///
/// With two frames a plurality of five or more is a majority, so the published majority
/// rule is a special case.
pub const CONSISTENCY_THRESHOLD: u32 = 4;

} // verus!
