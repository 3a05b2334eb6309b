//! Lazy, sample-count-keyed cache of render pipelines: each MSAA variant is
//! built on first use and reused afterwards.

use vstd::prelude::*;
use vstd::hash_map::HashMapWithView;

verus! {

broadcast use vstd::std_specs::hash::group_hash_axioms;

/// The MSAA sample count actually used for a requested one: 0 means 1 (no
/// multisampling).
pub open spec fn effective_samples(sample_count: u32) -> u32 {
    if sample_count >= 1 {
        sample_count
    } else {
        1
    }
}

/// The MSAA sample count actually used for a requested one (see
/// [`effective_samples`]).
pub fn clamp_sample_count(sample_count: u32) -> (n: u32)
    ensures
        n == effective_samples(sample_count),
        n >= 1,
{
    if sample_count >= 1 {
        sample_count
    } else {
        1
    }
}

/// Pipelines by effective sample count, each built at most once.
#[verifier::reject_recursive_types(P)]
pub struct PipelineCache<P> {
    cache: HashMapWithView<u32, P>,
}

impl<P> PipelineCache<P> {
    /// The pipelines built so far, by sample count.
    pub closed spec fn view(&self) -> Map<u32, P> {
        self.cache@
    }

    /// An empty cache.
    pub fn new() -> (c: Self)
        ensures
            c.view() == Map::<u32, P>::empty(),
    {
        PipelineCache { cache: HashMapWithView::new() }
    }

    /// The pipeline for `sample_count` (0 is treated as 1). On first use of a
    /// sample count the pipeline is produced by `build`, which receives the
    /// effective sample count and runs only then, and is cached.
    pub fn get<F: FnOnce(u32) -> P>(&mut self, sample_count: u32, build: F) -> (p: &P)
        requires
            call_requires(build, (effective_samples(sample_count),)),
        ensures
            ({
                let k = effective_samples(sample_count);
                &&& old(self).view().contains_key(k) ==> {
                    &&& final(self).view() == old(self).view()
                    &&& *p == old(self).view()[k]
                }
                &&& !old(self).view().contains_key(k) ==> {
                    &&& call_ensures(build, (k,), *p)
                    &&& final(self).view() == old(self).view().insert(k, *p)
                }
            }),
    {
        let k = clamp_sample_count(sample_count);
        if !self.cache.contains_key(&k) {
            let pipeline = build(k);
            self.cache.insert(k, pipeline);
        }
        match self.cache.get(&k) {
            Some(p) => p,
            None => {
                assert(false);
                self.cache.get(&k).unwrap()
            },
        }
    }
}

} // verus!
