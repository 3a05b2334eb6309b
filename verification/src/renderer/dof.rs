//! Depth-of-field settings.

use vstd::prelude::*;

verus! {

/// How the out-of-focus regions are blurred.
#[derive(Copy, Clone, Debug, PartialEq, Eq, Structural)]
pub enum DepthOfFieldMode {
    /// Circular (uniform-disk) bokeh: sharper highlight discs, higher contrast.
    Bokeh,
    /// Smooth gaussian falloff: softer blur.
    Gaussian,
}

} // verus!
