//! The set of baked or captured reflection probes sharing one texture array.

use vstd::prelude::*;
use crate::resource::texture::{bit_length, max_dim, full_mip_count};

verus! {

/// Maximum number of simultaneously active reflection probes (array layers).
pub const MAX_PROBES: usize = 8;
/// Width of each probe's equirectangular layer.
pub const PROBE_WIDTH: u32 = 256;
/// Height of each probe's equirectangular layer.
pub const PROBE_HEIGHT: u32 = 128;

/// The active probes, in layer order (index == array layer), at most
/// [`MAX_PROBES`] of them, and the mip count of the probe array.
pub struct ReflectionProbes<P> {
    mip_count: u32,
    probes: Vec<P>,
}

impl<P> ReflectionProbes<P> {
    /// The active probes.
    pub closed spec fn view(&self) -> Seq<P> {
        self.probes@
    }

    /// Number of mip levels of the probe array.
    pub closed spec fn spec_mip_count(&self) -> nat {
        self.mip_count as nat
    }

    /// At most [`MAX_PROBES`] probes are active.
    pub open spec fn wf(&self) -> bool {
        self.view().len() <= MAX_PROBES
    }

    /// An empty probe set; the array has the full mip chain of one layer.
    pub fn new() -> (r: Self)
        ensures
            r.wf(),
            r.view() == Seq::<P>::empty(),
            r.spec_mip_count() == bit_length(max_dim(PROBE_WIDTH, PROBE_HEIGHT) as nat),
    {
        let mip_count = full_mip_count(PROBE_WIDTH, PROBE_HEIGHT);
        assert(bit_length(max_dim(PROBE_WIDTH, PROBE_HEIGHT) as nat) >= 1) by {
            reveal_with_fuel(bit_length, 2);
        }
        ReflectionProbes { mip_count, probes: Vec::new() }
    }

    /// Number of active probes.
    pub fn len(&self) -> (n: usize)
        ensures
            n == self.view().len(),
    {
        self.probes.len()
    }

    /// Whether there are no active probes.
    pub fn is_empty(&self) -> (b: bool)
        ensures
            b <==> self.view().len() == 0,
    {
        self.probes.len() == 0
    }

    /// Number of mip levels in the probe array.
    pub fn mip_count(&self) -> (n: u32)
        ensures
            n == self.spec_mip_count(),
    {
        self.mip_count
    }

    /// The active probes, in layer order.
    pub fn probes(&self) -> (p: &Vec<P>)
        ensures
            p@ == self.view(),
    {
        &self.probes
    }

    /// The probe of layer `idx`, if active.
    pub fn probe(&self, idx: usize) -> (p: Option<&P>)
        ensures
            idx < self.view().len() ==> p == Some(&self.view()[idx as int]),
            idx >= self.view().len() ==> p is None,
    {
        if idx < self.probes.len() {
            Some(&self.probes[idx])
        } else {
            None
        }
    }

    /// Replaces the probe of layer `idx` (e.g. after moving it, before
    /// re-capturing). Returns `false`, changing nothing, if `idx` is not active.
    pub fn set_probe(&mut self, idx: usize, probe: P) -> (done: bool)
        ensures
            done == (idx < old(self).view().len()),
            done ==> final(self).view() == old(self).view().update(idx as int, probe),
            !done ==> final(self).view() == old(self).view(),
            final(self).spec_mip_count() == old(self).spec_mip_count(),
    {
        if idx < self.probes.len() {
            self.probes.set(idx, probe);
            true
        } else {
            false
        }
    }

    /// Registers a probe and returns its layer, or `None` when all
    /// [`MAX_PROBES`] layers are taken.
    pub fn add(&mut self, probe: P) -> (idx: Option<usize>)
        requires
            old(self).wf(),
        ensures
            final(self).wf(),
            final(self).spec_mip_count() == old(self).spec_mip_count(),
            old(self).view().len() >= MAX_PROBES ==> idx is None && final(self).view() == old(self).view(),
            old(self).view().len() < MAX_PROBES ==> idx == Some(old(self).view().len() as usize)
                && final(self).view() == old(self).view().push(probe),
    {
        if self.probes.len() >= MAX_PROBES {
            return None;
        }
        let idx = self.probes.len();
        self.probes.push(probe);
        Some(idx)
    }
}

} // verus!
