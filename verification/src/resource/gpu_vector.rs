//! Bookkeeping of a vector that lives in RAM, on the GPU, or both.
//!
//! The RAM copy, the dirty flag and the recorded length live here; the GPU
//! buffer itself is owned by the caller, who performs the [`GpuUpload`] that
//! each load asks for.

use vstd::prelude::*;

verus! {

/// Type of GPU buffer.
#[derive(Clone, Copy, Debug, PartialEq, Eq, Structural)]
pub enum BufferType {
    /// A vertex buffer (bindable as vertex data).
    Array,
    /// An index buffer (bindable as index data).
    ElementArray,
}

/// Allocation type of GPU buffers: a usage hint (buffers are created alike for every type).
#[derive(Clone, Copy, Debug, PartialEq, Eq, Structural)]
pub enum AllocationType {
    /// Data uploaded once, used many times (immutable meshes).
    StaticDraw,
    /// Data modified frequently.
    DynamicDraw,
    /// Data for immediate use (lines, points, text).
    StreamDraw,
}

/// The GPU work a load requires.
#[derive(Clone, Copy, Debug, PartialEq, Eq, Structural)]
pub enum GpuUpload {
    /// The GPU side is already up to date (or there is nothing to upload).
    Nothing,
    /// No GPU buffer exists yet: create one initialized with the RAM data.
    Create,
    /// The existing buffer is large enough: overwrite its start with the RAM data.
    Write,
    /// The existing buffer is too small: replace it by one initialized with the RAM data.
    Recreate,
}

/// The contents of an optional RAM copy.
pub open spec fn opt_view<T>(o: Option<Vec<T>>) -> Option<Seq<T>> {
    match o {
        Some(v) => Some(v@),
        None => None,
    }
}

/// A vector of elements that can be loaded to the GPU, kept on the RAM, or both.
pub struct GPUVec<T> {
    dirty: bool,
    len: usize,
    buf_type: BufferType,
    on_gpu: bool,
    data: Option<Vec<T>>,
}

impl<T> GPUVec<T> {
    /// Whether the RAM and GPU copies may differ.
    pub closed spec fn is_dirty(self) -> bool {
        self.dirty
    }

    /// Whether a GPU buffer exists.
    pub closed spec fn has_buffer(self) -> bool {
        self.on_gpu
    }

    /// The RAM copy, if any.
    pub closed spec fn ram(self) -> Option<Seq<T>> {
        opt_view(self.data)
    }

    /// The length recorded at the last upload (meaningful when not dirty).
    pub closed spec fn recorded_len(self) -> nat {
        self.len as nat
    }

    /// The kind of GPU buffer this vector is bound as.
    pub closed spec fn kind(self) -> BufferType {
        self.buf_type
    }

    /// The number of elements: that of the RAM copy when it may differ from
    /// the GPU copy, else the length recorded at the last upload.
    pub open spec fn spec_len(self) -> nat {
        match self.ram() {
            Some(d) if self.is_dirty() => d.len(),
            _ => self.recorded_len(),
        }
    }

    /// Creates a new `GPUVec` that is not yet uploaded to the GPU.
    pub fn new(data: Vec<T>, buf_type: BufferType, alloc_type: AllocationType) -> (v: GPUVec<T>)
        ensures
            v.is_dirty(),
            !v.has_buffer(),
            v.ram() == Some(data@),
            v.recorded_len() == data.len(),
            v.kind() == buf_type,
    {
        let len = data.len();
        GPUVec { dirty: true, len, buf_type, on_gpu: false, data: Some(data) }
    }

    /// Creates a new empty `GPUVec`.
    pub fn new_empty(buf_type: BufferType, alloc_type: AllocationType) -> (v: GPUVec<T>)
        ensures
            !v.is_dirty(),
            !v.has_buffer(),
            v.ram() == Some(Seq::<T>::empty()),
            v.recorded_len() == 0,
            v.kind() == buf_type,
    {
        GPUVec { dirty: false, len: 0, buf_type, on_gpu: false, data: Some(Vec::new()) }
    }

    /// The length of this vector.
    pub fn len(&self) -> (n: usize)
        ensures
            n == self.spec_len(),
    {
        if self.dirty {
            match &self.data {
                Some(d) => d.len(),
                None => self.len,
            }
        } else {
            self.len
        }
    }

    /// Is this vector empty?
    pub fn is_empty(&self) -> (b: bool)
        ensures
            b <==> self.spec_len() == 0,
    {
        self.len() == 0
    }

    /// Mutably accesses the RAM copy, marking this vector as dirty.
    pub fn data_mut(&mut self) -> (d: &mut Option<Vec<T>>)
        ensures
            opt_view(*d) == old(self).ram(),
            final(self).is_dirty(),
            final(self).has_buffer() == old(self).has_buffer(),
            final(self).recorded_len() == old(self).recorded_len(),
            final(self).kind() == old(self).kind(),
            final(self).ram() == opt_view(*final(d)),
    {
        self.dirty = true;
        &mut self.data
    }

    /// Immutably accesses the RAM copy.
    pub fn data(&self) -> (d: &Option<Vec<T>>)
        ensures
            self.ram() == opt_view(*d),
    {
        &self.data
    }

    /// Returns `true` if this vector is already uploaded to the GPU.
    pub fn is_on_gpu(&self) -> (b: bool)
        ensures
            b == self.has_buffer(),
    {
        self.on_gpu
    }

    /// Returns `true` if the RAM and GPU data are out of sync.
    pub fn dirty(&self) -> (b: bool)
        ensures
            b == self.is_dirty(),
    {
        self.dirty
    }

    /// Returns `true` if the RAM and GPU data are out of sync (alias of [`Self::dirty`]).
    pub fn trash(&self) -> (b: bool)
        ensures
            b == self.is_dirty(),
    {
        self.dirty
    }

    /// Returns `true` if this vector is available on RAM.
    pub fn is_on_ram(&self) -> (b: bool)
        ensures
            b == self.ram() is Some,
    {
        self.data.is_some()
    }

    /// The kind of GPU buffer this vector is bound as.
    pub fn buffer_type(&self) -> (t: BufferType)
        ensures
            t == self.kind(),
    {
        self.buf_type
    }

    /// The size in bytes of `n` elements.
    pub open spec fn byte_size(n: nat) -> nat {
        n * vstd::layout::size_of::<T>()
    }

    /// Decides the GPU work that loading the RAM copy requires, given the size
    /// in bytes of the current GPU buffer (ignored when there is none), and
    /// updates the bookkeeping accordingly.
    ///
    /// Nothing happens without a RAM copy, or with an empty one (the dirty
    /// flag is then kept as it was). Otherwise a missing buffer is created;
    /// an existing one is rewritten when dirty, in place if it is large enough
    /// and by a new buffer if not; and the vector becomes clean.
    pub fn load_to_gpu(&mut self, buffer_size: u64) -> (action: GpuUpload)
        ensures
            final(self).ram() == old(self).ram(),
            final(self).kind() == old(self).kind(),
            match old(self).ram() {
                None => {
                    &&& action == GpuUpload::Nothing
                    &&& !final(self).is_dirty()
                    &&& final(self).has_buffer() == old(self).has_buffer()
                    &&& final(self).recorded_len() == old(self).recorded_len()
                },
                Some(d) => if d.len() == 0 {
                    &&& action == GpuUpload::Nothing
                    &&& final(self).is_dirty() == old(self).is_dirty()
                    &&& final(self).has_buffer() == old(self).has_buffer()
                    &&& final(self).recorded_len() == old(self).recorded_len()
                } else {
                    &&& !final(self).is_dirty()
                    &&& final(self).has_buffer()
                    &&& if !old(self).has_buffer() {
                        &&& action == GpuUpload::Create
                        &&& final(self).recorded_len() == d.len()
                    } else if old(self).is_dirty() {
                        &&& action == (if Self::byte_size(d.len()) <= buffer_size {
                            GpuUpload::Write
                        } else {
                            GpuUpload::Recreate
                        })
                        &&& final(self).recorded_len() == d.len()
                    } else {
                        &&& action == GpuUpload::Nothing
                        &&& final(self).recorded_len() == old(self).recorded_len()
                    }
                },
            },
    {
        let mut action = GpuUpload::Nothing;
        match &self.data {
            Some(d) => {
                let n = d.len();
                if n == 0 {
                    return GpuUpload::Nothing;
                }
                if !self.on_gpu {
                    self.len = n;
                    self.on_gpu = true;
                    action = GpuUpload::Create;
                } else if self.dirty {
                    self.len = n;
                    let elem = core::mem::size_of::<T>();
                    assert((n as u128) * (elem as u128) <= u64::MAX * u64::MAX) by (nonlinear_arith)
                        requires n <= u64::MAX, elem <= u64::MAX;
                    let bytes: u128 = (n as u128) * (elem as u128);
                    if bytes <= buffer_size as u128 {
                        action = GpuUpload::Write;
                    } else {
                        action = GpuUpload::Recreate;
                    }
                }
            },
            None => {},
        }
        self.dirty = false;
        action
    }

    /// Forgets the GPU buffer, recording the current length.
    pub fn unload_from_gpu(&mut self)
        ensures
            !final(self).has_buffer(),
            !final(self).is_dirty(),
            final(self).recorded_len() == old(self).spec_len(),
            final(self).ram() == old(self).ram(),
            final(self).kind() == old(self).kind(),
    {
        self.len = self.len();
        self.on_gpu = false;
        self.dirty = false;
    }

    /// Removes the RAM copy. When the GPU buffer exists but is out of date it
    /// is first brought up to date: the returned action is the upload that
    /// requires, performed with the returned RAM data. The length of the RAM
    /// copy is recorded, so the vector keeps its length and is clean after.
    pub fn unload_from_ram(&mut self, buffer_size: u64) -> (res: (GpuUpload, Option<Vec<T>>))
        ensures
            final(self).ram() is None,
            final(self).kind() == old(self).kind(),
            !final(self).is_dirty(),
            final(self).has_buffer() == old(self).has_buffer(),
            final(self).recorded_len() == old(self).spec_len(),
            res.1 matches Some(v) ==> old(self).ram() == Some(v@),
            res.1 is None ==> old(self).ram() is None,
            res.0 == (match old(self).ram() {
                Some(d) if old(self).is_dirty() && old(self).has_buffer() && d.len() > 0 => if Self::byte_size(
                    d.len(),
                ) <= buffer_size {
                    GpuUpload::Write
                } else {
                    GpuUpload::Recreate
                },
                _ => GpuUpload::Nothing,
            }),
    {
        let mut action = GpuUpload::Nothing;
        if self.dirty && self.on_gpu {
            action = self.load_to_gpu(buffer_size);
        }
        if self.dirty {
            self.len = match &self.data {
                Some(d) => d.len(),
                None => self.len,
            };
            self.dirty = false;
        }
        let data = self.data.take();
        (action, data)
    }
}

} // verus!
