//! Zero-initialised I/O buffers that record the alignment they were asked for.

use vstd::prelude::*;

verus! {

/// A zero-initialised byte buffer of `len` usable bytes that records the alignment it was
/// asked for. It is an ordinary vector: safe code cannot place it at an aligned address, so
/// unbuffered device I/O must not rely on where its bytes lie.
pub struct AlignedBuffer {
    data: Vec<u8>,
    align: usize,
}

/// The default alignment, the page size of direct disk I/O.
pub const DEFAULT_ALIGNMENT: usize = 4096;

impl AlignedBuffer {
    /// The usable bytes.
    pub closed spec fn bytes(&self) -> Seq<u8> {
        self.data@
    }

    /// The alignment the buffer was asked for (not a property of its address).
    pub closed spec fn requested_alignment(&self) -> usize {
        self.align
    }

    /// A zeroed buffer of `size` bytes with the default alignment.
    pub fn new(size: usize) -> (r: Self)
        requires
            size + DEFAULT_ALIGNMENT - 1 <= usize::MAX,
        ensures
            r.bytes() == Seq::new(size as nat, |i: int| 0u8),
            r.requested_alignment() == DEFAULT_ALIGNMENT,
    {
        AlignedBuffer { data: vec![0u8; size], align: DEFAULT_ALIGNMENT }
    }

    /// A zeroed buffer of `size` bytes that records `align`, a power of two, as its alignment.
    pub fn with_alignment(size: usize, align: usize) -> (r: Self)
        requires
            align > 0,
            align & (align - 1) as usize == 0,
            size + align - 1 <= usize::MAX,
        ensures
            r.bytes() == Seq::new(size as nat, |i: int| 0u8),
            r.requested_alignment() == align,
    {
        AlignedBuffer { data: vec![0u8; size], align }
    }

    pub fn as_slice(&self) -> (r: &[u8])
        ensures
            r@ == self.bytes(),
    {
        self.data.as_slice()
    }

    pub fn as_mut_slice(&mut self) -> (r: &mut [u8])
        ensures
            r@ == old(self).bytes(),
            final(r)@.len() == old(self).bytes().len() ==> final(self).bytes() == final(r)@,
            final(self).requested_alignment() == old(self).requested_alignment(),
    {
        self.data.as_mut_slice()
    }

    pub fn len(&self) -> (r: usize)
        ensures
            r == self.bytes().len(),
    {
        self.data.len()
    }

    pub fn is_empty(&self) -> (r: bool)
        ensures
            r == (self.bytes().len() == 0),
    {
        self.data.len() == 0
    }

    /// Sets every byte to zero.
    pub fn fill_zero(&mut self)
        ensures
            final(self).bytes() == Seq::new(old(self).bytes().len(), |i: int| 0u8),
            final(self).requested_alignment() == old(self).requested_alignment(),
    {
        let n = self.data.len();
        let mut i: usize = 0;
        while i < n
            invariant
                n == self.data@.len(),
                self.align == old(self).align,
                i <= n,
                forall|j: int| 0 <= j < i ==> self.data@[j] == 0,
            decreases n - i,
        {
            self.data.set(i, 0);
            i += 1;
        }
        assert(self.data@ =~= Seq::new(n as nat, |i: int| 0u8));
    }
}

} // verus!
