//! Render-pass settings, render-target sizing and buffer-capacity rules.

pub mod dof;
pub mod half;
pub mod reflection_probe;
pub mod transmission;

use vstd::prelude::*;
use crate::resource::dynamic_buffer::grown_capacity;

verus! {

/// The smallest power of two that is at least `n` (1 for 0).
pub open spec fn next_pow2(n: nat) -> nat {
    grown_capacity(1, n)
}

/// The smallest power of two that is at least `n`, as `usize::next_power_of_two`.
pub fn next_power_of_two(n: usize) -> (p: usize)
    requires
        n <= usize::MAX / 2 + 1,
    ensures
        p == next_pow2(n as nat),
        p >= n,
        p >= 1,
{
    let mut p: usize = 1;
    while p < n
        invariant
            p >= 1,
            n <= usize::MAX / 2 + 1,
            grown_capacity(p as nat, n as nat) == grown_capacity(1, n as nat),
        decreases (if p >= n { 0int } else { n - p }),
    {
        p = p * 2;
    }
    p
}

/// The new element capacity of a GPU storage buffer that must hold `needed`
/// elements: `None` when the current `capacity` suffices, else the next power
/// of two at least `needed` (the buffer is then recreated at that capacity).
pub fn ensure_capacity(capacity: usize, needed: usize) -> (c: Option<usize>)
    requires
        needed <= usize::MAX / 2 + 1,
    ensures
        needed <= capacity ==> c is None,
        needed > capacity ==> c == Some(next_pow2(needed as nat) as usize),
        c matches Some(n) ==> n >= needed,
{
    if needed > capacity {
        Some(next_power_of_two(needed))
    } else {
        None
    }
}

/// A side clamped to at least one pixel.
pub open spec fn at_least_one(d: u32) -> u32 {
    if d >= 1 {
        d
    } else {
        1
    }
}

/// The size of a screen-space effect's render targets, and a generation
/// counter bumped each time they are reallocated (materials key cached bind
/// groups on it).
pub struct TargetSize {
    width: u32,
    height: u32,
    generation: u64,
}

impl TargetSize {
    /// The current target size.
    pub closed spec fn size(&self) -> (u32, u32) {
        (self.width, self.height)
    }

    /// The current generation.
    pub closed spec fn spec_generation(&self) -> nat {
        self.generation as nat
    }

    /// Targets for a `width` x `height` window (each side at least 1), first generation.
    pub fn new(width: u32, height: u32) -> (t: TargetSize)
        ensures
            t.size() == (at_least_one(width), at_least_one(height)),
            t.spec_generation() == 1,
    {
        let w = if width >= 1 {
            width
        } else {
            1
        };
        let h = if height >= 1 {
            height
        } else {
            1
        };
        TargetSize { width: w, height: h, generation: 1 }
    }

    /// Target width.
    pub fn width(&self) -> (w: u32)
        ensures
            w == self.size().0,
    {
        self.width
    }

    /// Target height.
    pub fn height(&self) -> (h: u32)
        ensures
            h == self.size().1,
    {
        self.height
    }

    /// Counter bumped on each target reallocation.
    pub fn generation(&self) -> (g: u64)
        ensures
            g == self.spec_generation(),
    {
        self.generation
    }

    /// Follows the window size (each side at least 1). Returns whether the
    /// targets must be reallocated: only when the size changed, which also
    /// bumps the generation.
    pub fn resize(&mut self, width: u32, height: u32) -> (changed: bool)
        requires
            old(self).spec_generation() < u64::MAX,
        ensures
            changed == (old(self).size() != (at_least_one(width), at_least_one(height))),
            final(self).size() == (at_least_one(width), at_least_one(height)),
            final(self).spec_generation() == old(self).spec_generation() + (if changed {
                1int
            } else {
                0int
            }),
    {
        let w = if width >= 1 {
            width
        } else {
            1
        };
        let h = if height >= 1 {
            height
        } else {
            1
        };
        if self.width == w && self.height == h {
            return false;
        }
        self.width = w;
        self.height = h;
        self.generation = self.generation + 1;
        true
    }
}

} // verus!
