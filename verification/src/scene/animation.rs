//! Playback state of a model's animation clips.
//!
//! The clips' keyframes and the playback clock are kept by the caller; this
//! player holds the clip names and decides which clip plays and whether it
//! is running.

use vstd::prelude::*;

verus! {

/// How keyframe values are interpolated between two times (mirrors glTF).
#[derive(Copy, Clone, Debug, PartialEq, Eq, Structural)]
pub enum Interpolation {
    /// Linear interpolation (`lerp` for vectors, `slerp` for rotations).
    Linear,
    /// Stepwise: hold the previous keyframe's value until the next time.
    Step,
    /// Cubic Hermite spline; each keyframe stores `(in_tangent, value, out_tangent)`.
    CubicSpline,
}

/// Which of a model's clips plays, and whether it is running.
pub struct AnimationPlayer {
    clip_names: Vec<String>,
    current: Option<usize>,
    looping: bool,
    playing: bool,
}

/// The first position of `name` among `names`, if any.
pub open spec fn first_index(names: Seq<Seq<char>>, name: Seq<char>) -> Option<int> {
    if exists|i: int| 0 <= i < names.len() && names[i] == name {
        Some(choose|i: int| 0 <= i < names.len() && names[i] == name && forall|j: int| 0 <= j < i ==> names[j] != name)
    } else {
        None
    }
}

impl AnimationPlayer {
    /// The clip names, in index order.
    pub closed spec fn names(&self) -> Seq<Seq<char>> {
        self.clip_names@.map_values(|s: String| s@)
    }

    /// The active clip, if any.
    pub closed spec fn spec_current(&self) -> Option<usize> {
        self.current
    }

    /// Whether the active clip loops.
    pub closed spec fn spec_looping(&self) -> bool {
        self.looping
    }

    /// Whether a clip is advancing.
    pub closed spec fn spec_playing(&self) -> bool {
        self.playing
    }

    /// The active clip, when there is one, is one of the clips.
    pub open spec fn wf(&self) -> bool {
        self.spec_current() matches Some(i) ==> i < self.names().len()
    }

    /// A player over clips with the given names, initially stopped, with no
    /// active clip, looping.
    pub fn new(clip_names: Vec<String>) -> (p: AnimationPlayer)
        ensures
            p.wf(),
            p.names() == clip_names@.map_values(|s: String| s@),
            p.spec_current() is None,
            p.spec_looping(),
            !p.spec_playing(),
    {
        AnimationPlayer { clip_names, current: None, looping: true, playing: false }
    }

    /// The number of clips.
    pub fn clip_count(&self) -> (n: usize)
        ensures
            n == self.names().len(),
    {
        self.clip_names.len()
    }

    /// The names of all clips, in index order.
    pub fn clip_names(&self) -> (names: &Vec<String>)
        ensures
            names@.map_values(|s: String| s@) == self.names(),
    {
        &self.clip_names
    }

    /// The active clip, if any.
    pub fn current(&self) -> (c: Option<usize>)
        ensures
            c == self.spec_current(),
    {
        self.current
    }

    /// Starts (or restarts) the clip at `index`; out-of-range indices are
    /// ignored. Returns whether the clip was started (its clock then restarts
    /// from 0).
    pub fn play_index(&mut self, index: usize) -> (started: bool)
        requires
            old(self).wf(),
        ensures
            final(self).wf(),
            started == (index < old(self).names().len()),
            final(self).names() == old(self).names(),
            final(self).spec_looping() == old(self).spec_looping(),
            started ==> final(self).spec_current() == Some(index) && final(self).spec_playing(),
            !started ==> final(self).spec_current() == old(self).spec_current()
                && final(self).spec_playing() == old(self).spec_playing(),
    {
        if index < self.clip_names.len() {
            self.current = Some(index);
            self.playing = true;
            true
        } else {
            false
        }
    }

    /// Starts (or restarts) the first clip named `name`. Returns `false` if no
    /// clip matches; playback is then left unchanged.
    pub fn play(&mut self, name: &str) -> (started: bool)
        requires
            old(self).wf(),
        ensures
            final(self).wf(),
            final(self).names() == old(self).names(),
            final(self).spec_looping() == old(self).spec_looping(),
            started == first_index(old(self).names(), name@) is Some,
            started ==> final(self).spec_current() == Some(
                first_index(old(self).names(), name@).unwrap() as usize,
            ) && final(self).spec_playing(),
            !started ==> final(self).spec_current() == old(self).spec_current()
                && final(self).spec_playing() == old(self).spec_playing(),
    {
        let target = name.to_owned();
        let mut i: usize = 0;
        while i < self.clip_names.len()
            invariant
                0 <= i <= self.clip_names.len(),
                target@ == name@,
                self.wf(),
                self.clip_names@.map_values(|s: String| s@) == old(self).names(),
                self.current == old(self).spec_current(),
                self.playing == old(self).spec_playing(),
                self.looping == old(self).spec_looping(),
                forall|j: int| 0 <= j < i ==> self.clip_names@[j]@ != name@,
            decreases self.clip_names.len() - i,
        {
            if self.clip_names[i] == target {
                proof {
                    let names = old(self).names();
                    assert(names[i as int] == name@);
                    let w = choose|k: int|
                        0 <= k < names.len() && names[k] == name@ && forall|j: int|
                            0 <= j < k ==> names[j] != name@;
                    assert(0 <= i < names.len() && names[i as int] == name@ && forall|j: int|
                        0 <= j < i ==> names[j] != name@);
                    if w < i {
                        assert(names[w] != name@);
                    } else if w > i {
                        assert(names[i as int] != name@);
                    }
                }
                let started = self.play_index(i);
                return started;
            }
            i = i + 1;
        }
        proof {
            let names = old(self).names();
            assert forall|k: int| 0 <= k < names.len() implies names[k] != name@ by {
                assert(names[k] == self.clip_names@[k]@);
            }
        }
        false
    }

    /// Stops playback (the pose freezes at the last sampled frame).
    pub fn stop(&mut self)
        requires
            old(self).wf(),
        ensures
            final(self).wf(),
            !final(self).spec_playing(),
            final(self).names() == old(self).names(),
            final(self).spec_current() == old(self).spec_current(),
            final(self).spec_looping() == old(self).spec_looping(),
    {
        self.playing = false;
    }

    /// Whether a clip is currently advancing.
    pub fn is_playing(&self) -> (b: bool)
        ensures
            b == self.spec_playing(),
    {
        self.playing
    }

    /// Sets whether the active clip loops.
    pub fn set_looping(&mut self, looping: bool)
        requires
            old(self).wf(),
        ensures
            final(self).wf(),
            final(self).spec_looping() == looping,
            final(self).names() == old(self).names(),
            final(self).spec_current() == old(self).spec_current(),
            final(self).spec_playing() == old(self).spec_playing(),
    {
        self.looping = looping;
    }

    /// Whether the active clip loops.
    pub fn is_looping(&self) -> (b: bool)
        ensures
            b == self.spec_looping(),
    {
        self.looping
    }

    /// The clip that advances this frame: the active clip while playing.
    pub fn advancing_clip(&self) -> (c: Option<usize>)
        ensures
            c == (if self.spec_playing() { self.spec_current() } else { None }),
    {
        if !self.playing {
            return None;
        }
        self.current
    }
}

} // verus!
