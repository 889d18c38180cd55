//! Buffers for direct input and output.

use vstd::prelude::*;
use vstd::slice::slice_subrange;

verus! {

/// A buffer whose bytes start at a page boundary in memory.
///
/// The bytes stand in a longer vector, from the first boundary on.
#[derive(Debug)]
pub struct AlignedBuffer {
    bytes: Vec<u8>,
    start: usize,
    len: usize,
}

/// The number of bytes from the start of a vector to the first boundary.
///
/// Calls `align_offset` of the pointer to the first byte. What is taken on trust:
/// nothing, the caller looks whether it can use the number. That it leads to a
/// boundary is a matter of addresses, of which nothing is stated here.
#[verifier::external_body]
fn boundary_offset(bytes: &Vec<u8>, alignment: usize) -> (r: usize)
    requires
        alignment == 4096,
{
    bytes.as_ptr().align_offset(alignment)
}

/// Some zeros.
pub open spec fn zeros(n: nat) -> Seq<u8> {
    Seq::new(n, |i: int| 0u8)
}

/// Zeros are as many as asked for, and nothing else.
pub proof fn law_zeros(n: nat, i: int)
    ensures
        zeros(n).len() == n,
        0 <= i < n ==> zeros(n)[i] == 0,
{
}

impl View for AlignedBuffer {
    type V = Seq<u8>;

    closed spec fn view(&self) -> Seq<u8> {
        self.bytes@.subrange(self.start as int, self.start + self.len)
    }
}

impl AlignedBuffer {
    /// The boundaries are this far apart.
    pub const ALIGNMENT: usize = 4096;

    /// Are the bytes inside the vector?
    pub closed spec fn wf(&self) -> bool {
        self.start + self.len <= self.bytes@.len() <= usize::MAX
    }

    /// A buffer of zeros.
    pub fn zeroed(size: usize) -> (r: Self)
        requires
            size + 4096 <= usize::MAX,
        ensures
            r.wf(),
            r@ == zeros(size as nat),
    {
        let bytes: Vec<u8> = vec![0; size + 4095];
        let offset: usize = boundary_offset(&bytes, 4096);
        let start: usize = if offset < 4096 {
            offset
        } else {
            0
        };
        let r = AlignedBuffer { bytes, start, len: size };
        assert(r@ =~= zeros(size as nat));
        r
    }

    /// The number of bytes.
    pub fn len(&self) -> (r: usize)
        requires
            self.wf(),
        ensures
            r == self@.len(),
    {
        self.len
    }

    /// Are there no bytes?
    pub fn is_empty(&self) -> (r: bool)
        requires
            self.wf(),
        ensures
            r == (self@.len() == 0),
    {
        self.len == 0
    }

    /// The bytes.
    pub fn as_slice(&self) -> (r: &[u8])
        requires
            self.wf(),
        ensures
            r@ == self@,
    {
        slice_subrange(self.bytes.as_slice(), self.start, self.start + self.len)
    }

    /// The bytes, to be changed.
    pub fn as_mut_slice(&mut self) -> (r: &mut [u8])
        requires
            old(self).wf(),
        ensures
            r@ == old(self)@,
            final(r)@.len() == r@.len() ==> final(self).wf() && final(self)@ == final(r)@,
    {
        let start: usize = self.start;
        let len: usize = self.len;
        let (_front, rest) = self.bytes.as_mut_slice().split_at_mut(start);
        let (middle, _back) = rest.split_at_mut(len);
        middle
    }

    /// Makes the buffer longer or shorter. New bytes are zeros.
    pub fn resize(&mut self, new_len: usize)
        requires
            old(self).wf(),
            new_len + 4096 <= usize::MAX,
        ensures
            final(self).wf(),
            final(self)@ == (if new_len <= old(self)@.len() {
                old(self)@.take(new_len as int)
            } else {
                old(self)@ + zeros((new_len - old(self)@.len()) as nat)
            }),
    {
        let ghost before = self@;
        if new_len <= self.len {
            self.len = new_len;
            assert(self@ =~= before.take(new_len as int));
            return;
        }
        let longer = self.copy_to(new_len);
        *self = longer;
    }

    /// A buffer of its own with the same bytes, and zeros behind them.
    fn copy_to(&self, new_len: usize) -> (r: Self)
        requires
            self.wf(),
            self@.len() <= new_len,
            new_len + 4096 <= usize::MAX,
        ensures
            r.wf(),
            r@ == self@ + zeros((new_len - self@.len()) as nat),
    {
        let ghost before = self@;
        let mut longer = AlignedBuffer::zeroed(new_len);
        let mut i: usize = 0;
        assert(longer@ =~= before.take(0) + zeros(new_len as nat));
        while i < self.len
            invariant
                self.wf(),
                self@ == before,
                before.len() == self.len,
                self.len <= new_len,
                longer.wf(),
                i <= self.len,
                longer@ == before.take(i as int) + zeros((new_len - i) as nat),
            decreases self.len - i,
        {
            longer.set(i, self.bytes[self.start + i]);
            assert(before[i as int] == self.bytes@[self.start + i]);
            assert(longer@ =~= before.take(i + 1) + zeros((new_len - i - 1) as nat));
            i += 1;
        }
        assert(before.take(i as int) =~= before);
        longer
    }

    /// A buffer of its own with the same bytes.
    pub fn duplicate(&self) -> (r: Self)
        requires
            self.wf(),
            self@.len() + 4096 <= usize::MAX,
        ensures
            r.wf(),
            r@ == self@,
    {
        let r = self.copy_to(self.len);
        assert(self@ + zeros(0) =~= self@);
        r
    }

    /// Sets one byte.
    pub fn set(&mut self, i: usize, b: u8)
        requires
            old(self).wf(),
            i < old(self)@.len(),
        ensures
            final(self).wf(),
            final(self)@ == old(self)@.update(i as int, b),
    {
        let ghost before = self@;
        let at: usize = self.start + i;
        self.bytes[at] = b;
        assert(self@ =~= before.update(i as int, b));
    }
}

} // verus!
