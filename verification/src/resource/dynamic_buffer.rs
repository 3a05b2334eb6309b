//! Batched uniform writes: entries are accumulated in CPU memory, each padded
//! to the device's uniform-offset alignment, and flushed to one GPU buffer.
//!
//! This module holds the CPU-side accumulator and the sizing rules; the caller
//! owns the GPU buffer and performs the [`FlushAction`] each flush asks for.

use vstd::prelude::*;

verus! {

/// The smallest multiple of `alignment` that is at least `size`.
pub open spec fn align_up(size: nat, alignment: nat) -> nat
    recommends
        alignment > 0,
{
    (((size + alignment - 1) / alignment as int) * alignment) as nat
}

/// The capacity reached by doubling `capacity` until it holds `required` bytes.
pub open spec fn grown_capacity(capacity: nat, required: nat) -> nat
    decreases (if capacity >= required { 0int } else { required - capacity }),
    when capacity > 0
{
    if capacity >= required {
        capacity
    } else {
        grown_capacity(2 * capacity, required)
    }
}

/// The capacity a buffer of `capacity` bytes grows to so that it holds
/// `required` bytes: an empty buffer starts at `required`, any other doubles
/// until it holds them.
pub open spec fn grow_target(capacity: nat, required: nat) -> nat {
    if capacity == 0 {
        required
    } else {
        grown_capacity(capacity, required)
    }
}

/// `n` zero bytes.
pub open spec fn zeros(n: nat) -> Seq<u8> {
    Seq::new(n, |i: int| 0u8)
}

/// The GPU work a flush requires.
#[derive(Clone, Copy, Debug, PartialEq, Eq, Structural)]
pub enum FlushAction {
    /// No entries: nothing is written.
    Nothing,
    /// Write the accumulated bytes at the start of the existing buffer.
    Write,
    /// The buffer is too small: replace it by one of the new capacity, then write.
    Reallocate,
}

/// A dynamic uniform buffer that batches writes.
///
/// `T` is the uniform type; each entry takes `aligned_size` bytes, the size of
/// `T` rounded up to the device's minimum uniform-buffer offset alignment.
pub struct DynamicUniformBuffer<T> {
    data: Vec<u8>,
    capacity: u64,
    alignment: u64,
    aligned_size: u64,
    count: usize,
    marker: core::marker::PhantomData<T>,
}

impl<T> DynamicUniformBuffer<T> {
    /// The accumulated bytes.
    pub closed spec fn bytes(self) -> Seq<u8> {
        self.data@
    }

    /// The GPU buffer capacity in bytes.
    pub closed spec fn spec_capacity(self) -> nat {
        self.capacity as nat
    }

    /// The offset alignment.
    pub closed spec fn spec_alignment(self) -> nat {
        self.alignment as nat
    }

    /// The bytes taken by each entry.
    pub closed spec fn spec_aligned_size(self) -> nat {
        self.aligned_size as nat
    }

    /// The number of entries pushed since the last clear.
    pub closed spec fn spec_count(self) -> nat {
        self.count as nat
    }

    /// Internal consistency: the entry size is the aligned size of `T`, and
    /// the accumulated bytes hold exactly `count` entries.
    pub open spec fn wf(self) -> bool {
        &&& self.spec_alignment() > 0
        &&& self.spec_aligned_size() == align_up(
            vstd::layout::size_of::<T>(),
            self.spec_alignment(),
        )
        &&& self.bytes().len() == self.spec_count() * self.spec_aligned_size()
    }

    /// Creates a buffer with room for 256 entries, given the device's minimum
    /// uniform-buffer offset alignment.
    pub fn new(alignment: u64) -> (b: Self)
        requires
            alignment > 0,
            align_up(vstd::layout::size_of::<T>(), alignment as nat) * 256 <= u64::MAX,
        ensures
            b.wf(),
            b.spec_alignment() == alignment,
            b.spec_count() == 0,
            b.bytes() == Seq::<u8>::empty(),
            b.spec_capacity() == b.spec_aligned_size() * 256,
    {
        Self::with_capacity(alignment, 256)
    }

    /// Creates a buffer with room for `initial_capacity` entries, given the
    /// device's minimum uniform-buffer offset alignment.
    pub fn with_capacity(alignment: u64, initial_capacity: usize) -> (b: Self)
        requires
            alignment > 0,
            align_up(vstd::layout::size_of::<T>(), alignment as nat) <= u64::MAX,
            align_up(vstd::layout::size_of::<T>(), alignment as nat) * initial_capacity
                <= u64::MAX,
        ensures
            b.wf(),
            b.spec_alignment() == alignment,
            b.spec_count() == 0,
            b.bytes() == Seq::<u8>::empty(),
            b.spec_capacity() == b.spec_aligned_size() * initial_capacity,
    {
        let unaligned = core::mem::size_of::<T>() as u64;
        proof {
            let s = unaligned as int;
            let a = alignment as int;
            assert(s / a + (if s % a != 0 { 1int } else { 0int }) <= u64::MAX) by (nonlinear_arith)
                requires a > 0, 0 <= s <= u64::MAX;
        }
        let blocks = unaligned / alignment + if unaligned % alignment != 0 {
            1u64
        } else {
            0u64
        };
        proof {
            let s = unaligned as int;
            let a = alignment as int;
            assert((s + a - 1) / a == s / a + (if s % a != 0 { 1int } else { 0int }))
                by (nonlinear_arith)
                requires a > 0, s >= 0;
            assert(blocks * alignment == align_up(unaligned as nat, alignment as nat));
            assert(blocks * alignment <= u64::MAX);
        }
        let aligned_size = blocks * alignment;
        proof {
            assert(aligned_size * initial_capacity <= u64::MAX);
        }
        let capacity = aligned_size * initial_capacity as u64;
        DynamicUniformBuffer {
            data: Vec::new(),
            capacity,
            alignment,
            aligned_size,
            count: 0,
            marker: core::marker::PhantomData,
        }
    }

    /// Returns the alignment requirement for uniform buffer offsets.
    pub fn alignment(&self) -> (a: u64)
        ensures
            a == self.spec_alignment(),
    {
        self.alignment
    }

    /// Returns the aligned size of each entry.
    pub fn aligned_size(&self) -> (s: u64)
        ensures
            s == self.spec_aligned_size(),
    {
        self.aligned_size
    }

    /// Returns the number of entries currently in the buffer.
    pub fn len(&self) -> (n: usize)
        ensures
            n == self.spec_count(),
    {
        self.count
    }

    /// Returns true if the buffer contains no entries.
    pub fn is_empty(&self) -> (b: bool)
        ensures
            b <==> self.spec_count() == 0,
    {
        self.count == 0
    }

    /// Returns the current capacity of the GPU buffer in bytes.
    pub fn capacity(&self) -> (c: u64)
        ensures
            c == self.spec_capacity(),
    {
        self.capacity
    }

    /// The accumulated bytes, to be written to the GPU buffer.
    pub fn data(&self) -> (d: &Vec<u8>)
        ensures
            d@ == self.bytes(),
    {
        &self.data
    }

    /// Clears the buffer for the next frame (the capacity is kept).
    pub fn clear(&mut self)
        requires
            old(self).wf(),
        ensures
            final(self).wf(),
            final(self).spec_count() == 0,
            final(self).bytes() == Seq::<u8>::empty(),
            final(self).spec_capacity() == old(self).spec_capacity(),
            final(self).spec_alignment() == old(self).spec_alignment(),
            final(self).spec_aligned_size() == old(self).spec_aligned_size(),
    {
        self.data.clear();
        self.count = 0;
    }

    /// Pushes one entry, given as the bytes of a `T`, padded with zeros to the
    /// aligned size, and returns its byte offset in the buffer (truncated to
    /// 32 bits).
    pub fn push(&mut self, value: &[u8]) -> (offset: u32)
        requires
            old(self).wf(),
            value@.len() == vstd::layout::size_of::<T>(),
            (old(self).spec_count() + 1) * old(self).spec_aligned_size() <= u64::MAX,
            old(self).spec_count() + 1 <= usize::MAX,
            (old(self).spec_count() + 1) * old(self).spec_aligned_size() <= usize::MAX,
        ensures
            final(self).wf(),
            offset == (old(self).spec_count() * old(self).spec_aligned_size()) % 0x1_0000_0000,
            final(self).spec_count() == old(self).spec_count() + 1,
            final(self).bytes() == old(self).bytes() + value@ + zeros(
                (old(self).spec_aligned_size() - value@.len()) as nat,
            ),
            final(self).spec_capacity() == old(self).spec_capacity(),
            final(self).spec_alignment() == old(self).spec_alignment(),
            final(self).spec_aligned_size() == old(self).spec_aligned_size(),
    {
        proof {
            let c = self.count as int;
            let a = self.aligned_size as int;
            assert(c * a <= (c + 1) * a && a <= (c + 1) * a) by (nonlinear_arith)
                requires c >= 0, a >= 0;
            lemma_align_up_ge(vstd::layout::size_of::<T>(), self.alignment as nat);
        }
        let wide = self.count as u64 * self.aligned_size;
        let offset = (wide % 0x1_0000_0000) as u32;
        let mut entry: Vec<u8> = Vec::new();
        let mut i: usize = 0;
        while i < value.len()
            invariant
                0 <= i <= value.len(),
                entry@ == value@.subrange(0, i as int),
            decreases value.len() - i,
        {
            entry.push(value[i]);
            i = i + 1;
            assert(entry@ =~= value@.subrange(0, i as int));
        }
        assert(value@.subrange(0, value.len() as int) =~= value@);
        let padding = self.aligned_size as usize - value.len();
        let mut k: usize = 0;
        while k < padding
            invariant
                0 <= k <= padding,
                entry@ == value@ + zeros(k as nat),
            decreases padding - k,
        {
            entry.push(0u8);
            k = k + 1;
            assert(entry@ =~= value@ + zeros(k as nat));
        }
        let ghost old_bytes = self.data@;
        self.data.append(&mut entry);
        assert(self.data@ =~= old_bytes + value@ + zeros(padding as nat));
        self.count = self.count + 1;
        proof {
            let c = old(self).spec_count() as int;
            let a = self.aligned_size as int;
            assert(c * a + a == (c + 1) * a) by (nonlinear_arith);
        }
        offset
    }

    /// Decides the GPU work for flushing the accumulated bytes. When they do
    /// not fit, the buffer is grown as necessary (see [`grow_target`]); the
    /// caller then replaces the GPU buffer by one of [`Self::capacity`] bytes.
    pub fn flush(&mut self) -> (action: FlushAction)
        requires
            old(self).wf(),
            old(self).bytes().len() <= isize::MAX,
        ensures
            final(self).wf(),
            final(self).bytes() == old(self).bytes(),
            final(self).spec_count() == old(self).spec_count(),
            final(self).spec_alignment() == old(self).spec_alignment(),
            final(self).spec_aligned_size() == old(self).spec_aligned_size(),
            old(self).bytes().len() == 0 ==> action == FlushAction::Nothing
                && final(self).spec_capacity() == old(self).spec_capacity(),
            old(self).bytes().len() > 0 && old(self).bytes().len() <= old(self).spec_capacity()
                ==> action == FlushAction::Write && final(self).spec_capacity() == old(self).spec_capacity(),
            old(self).bytes().len() > old(self).spec_capacity() ==> action
                == FlushAction::Reallocate && final(self).spec_capacity() == grow_target(
                old(self).spec_capacity(),
                old(self).bytes().len(),
            ),
            final(self).spec_capacity() >= old(self).spec_capacity(),
            old(self).bytes().len() > 0 ==> final(self).spec_capacity() >= old(self).bytes().len(),
    {
        if self.data.len() == 0 {
            return FlushAction::Nothing;
        }
        let required = self.data.len() as u64;
        if required > self.capacity {
            self.grow(required);
            FlushAction::Reallocate
        } else {
            FlushAction::Write
        }
    }

    /// Grows the capacity until it holds `required` bytes (see [`grow_target`]).
    fn grow(&mut self, required: u64)
        requires
            required <= isize::MAX,
        ensures
            final(self).spec_capacity() == grow_target(old(self).spec_capacity(), required as nat),
            final(self).spec_capacity() >= required,
            final(self).spec_capacity() >= old(self).spec_capacity(),
            final(self).bytes() == old(self).bytes(),
            final(self).spec_count() == old(self).spec_count(),
            final(self).spec_alignment() == old(self).spec_alignment(),
            final(self).spec_aligned_size() == old(self).spec_aligned_size(),
    {
        if self.capacity == 0 {
            self.capacity = required;
            return;
        }
        let mut new_capacity = self.capacity;
        while new_capacity < required
            invariant
                new_capacity > 0,
                old(self).spec_capacity() > 0,
                new_capacity >= old(self).spec_capacity(),
                required <= isize::MAX,
                grown_capacity(new_capacity as nat, required as nat) == grown_capacity(
                    old(self).spec_capacity(),
                    required as nat,
                ),
            decreases (if new_capacity >= required { 0int } else { required - new_capacity }),
        {
            new_capacity = new_capacity * 2;
        }
        self.capacity = new_capacity;
    }
}

/// The aligned size is at least the size it rounds up.
pub proof fn lemma_align_up_ge(size: nat, alignment: nat)
    requires
        alignment > 0,
    ensures
        align_up(size, alignment) >= size,
        align_up(size, alignment) % alignment == 0,
        align_up(size, alignment) < size + alignment,
{
    let s = size as int;
    let a = alignment as int;
    let q = (s + a - 1) / a;
    assert(q * a <= s + a - 1 && s + a - 1 < q * a + a) by (nonlinear_arith)
        requires a > 0, q == (s + a - 1) / a;
    assert((q * a) % a == 0) by (nonlinear_arith)
        requires a > 0;
}

/// Law: every offset handed out by [`DynamicUniformBuffer::push`] (before the
/// 32-bit truncation) is a multiple of the device alignment, so each entry can
/// be selected as a dynamic uniform-buffer offset.
pub proof fn lemma_push_offsets_aligned(count: nat, size: nat, alignment: nat)
    requires
        alignment > 0,
    ensures
        (count * align_up(size, alignment)) % alignment == 0,
{
    lemma_align_up_ge(size, alignment);
    let s = align_up(size, alignment) as int;
    let a = alignment as int;
    let c = count as int;
    let k = s / a;
    vstd::arithmetic::div_mod::lemma_fundamental_div_mod(s, a);
    assert(s == k * a) by (nonlinear_arith)
        requires s == a * (s / a) + s % a, s % a == 0, k == s / a;
    assert(c * s == (c * k) * a) by (nonlinear_arith)
        requires s == k * a;
    vstd::arithmetic::div_mod::lemma_mod_multiples_basic(c * k, a);
}

} // verus!
