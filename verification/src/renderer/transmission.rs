//! Settings of the screen-space refractive transmission (glass) pass.

use vstd::prelude::*;

verus! {

/// Quality of the refraction background blur: how its mip chain is downsampled.
#[derive(Copy, Clone, Debug, PartialEq, Eq, Structural)]
pub enum TransmissionBlurQuality {
    /// 2x2 box downsample (1 bilinear tap).
    Low,
    /// About 4x4 tent downsample (4 bilinear taps).
    Medium,
    /// 13-tap near-Gaussian downsample (the default).
    High,
}

impl Default for TransmissionBlurQuality {
    /// The default quality, [`TransmissionBlurQuality::High`].
    fn default() -> (q: TransmissionBlurQuality)
        ensures
            q == TransmissionBlurQuality::High,
    {
        TransmissionBlurQuality::High
    }
}

impl TransmissionBlurQuality {
    /// Index of the downsample pipeline of this quality (low, medium, high).
    pub fn pipeline_index(self) -> (i: usize)
        ensures
            i == match self {
                TransmissionBlurQuality::Low => 0usize,
                TransmissionBlurQuality::Medium => 1usize,
                TransmissionBlurQuality::High => 2usize,
            },
            i < 3,
    {
        match self {
            TransmissionBlurQuality::Low => 0,
            TransmissionBlurQuality::Medium => 1,
            TransmissionBlurQuality::High => 2,
        }
    }
}

/// Tunable refractive-transmission (glass) settings.
#[derive(Copy, Clone, Debug, PartialEq, Eq, Structural)]
pub struct TransmissionSettings {
    /// Quality of the roughness blur applied to the refracted background.
    pub blur_quality: TransmissionBlurQuality,
    /// Number of screen-space transmission passes: each one more layer of
    /// glass seen through glass.
    pub steps: u32,
}

impl Default for TransmissionSettings {
    /// High-quality blur and one transmission pass.
    fn default() -> (s: TransmissionSettings)
        ensures
            s.blur_quality == TransmissionBlurQuality::High,
            s.steps == 1,
    {
        TransmissionSettings { blur_quality: TransmissionBlurQuality::default(), steps: 1 }
    }
}

impl TransmissionSettings {
    /// Number of transmission passes to run per frame (always at least 1).
    pub fn steps(&self) -> (n: u32)
        ensures
            n == (if self.steps >= 1 { self.steps } else { 1 }),
            n >= 1,
    {
        if self.steps >= 1 {
            self.steps
        } else {
            1
        }
    }
}

} // verus!
