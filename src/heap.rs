use vstd::prelude::*;

verus! {

broadcast use vstd::layout::layout_of_primitives;

/// The largest capacity a block may be created with. A block takes two words
/// of header plus its bytes, rounded up to a word; with this bound that size
/// stays within `isize::MAX`, the limit every allocation is held to.
pub const MAX_CAPACITY: usize = usize::MAX / 2 - 32;

/// Size and alignment, in bytes, of the allocation that holds one block.
#[derive(Clone, Copy, Debug, PartialEq, Eq)]
pub struct BlockLayout {
    pub size: usize,
    pub align: usize,
}

/// Number of bytes in a machine word.
pub open spec fn word_bytes() -> int {
    vstd::layout::size_of::<usize>() as int
}

/// Bytes taken by a block of `capacity` bytes: the header (reference count and
/// capacity, one word each) followed by the buffer, padded to a whole word.
pub open spec fn block_size(capacity: int) -> int {
    let raw = 2 * word_bytes() + capacity;
    let rem = raw % word_bytes();
    if rem == 0 {
        raw
    } else {
        raw + (word_bytes() - rem)
    }
}

/// One heap block: its capacity and a buffer of exactly that many bytes.
///
/// The reference count that the original header carries lives in the `Arc`
/// that owns the block; the block itself holds only what a reader of it needs.
pub struct ArcStringInner {
    capacity: usize,
    str_buffer: Vec<u8>,
}

impl View for ArcStringInner {
    type V = Seq<u8>;

    /// The whole buffer, used and unused parts alike.
    closed spec fn view(&self) -> Seq<u8> {
        self.str_buffer@
    }
}

impl ArcStringInner {
    /// The capacity the block was created with.
    pub closed spec fn spec_capacity(&self) -> nat {
        self.capacity as nat
    }

    /// The buffer holds exactly `capacity` bytes, and the capacity is within
    /// what one allocation may hold.
    pub open spec fn wf(&self) -> bool {
        &&& self@.len() == self.spec_capacity()
        &&& self.spec_capacity() <= MAX_CAPACITY
    }

    /// A fresh block of `capacity` bytes, all of them zero.
    pub fn with_capacity(capacity: usize) -> (r: ArcStringInner)
        requires
            capacity <= MAX_CAPACITY,
        ensures
            r.wf(),
            r.spec_capacity() == capacity,
            r@ == Seq::new(capacity as nat, |i: int| 0u8),
    {
        let mut str_buffer: Vec<u8> = Vec::with_capacity(capacity);
        let mut i: usize = 0;
        while i < capacity
            invariant
                i <= capacity,
                str_buffer@ == Seq::new(i as nat, |k: int| 0u8),
            decreases capacity - i,
        {
            str_buffer.push(0u8);
            i = i + 1;
        }
        ArcStringInner { capacity, str_buffer }
    }

    /// The capacity of the block, read from the block itself.
    pub fn capacity(&self) -> (r: usize)
        ensures
            r == self.spec_capacity(),
    {
        self.capacity
    }

    /// The full buffer, `capacity` bytes long.
    pub fn as_bytes(&self) -> (r: &[u8])
        ensures
            r@ == self@,
    {
        self.str_buffer.as_slice()
    }

    /// Copies `bytes` into the buffer starting at `at`, leaving every other
    /// byte as it was.
    pub fn write_at(&mut self, at: usize, bytes: &[u8])
        requires
            old(self).wf(),
            at + bytes@.len() <= old(self).spec_capacity(),
        ensures
            final(self).wf(),
            final(self).spec_capacity() == old(self).spec_capacity(),
            final(self)@ == old(self)@.subrange(0, at as int) + bytes@ + old(self)@.subrange(
                at + bytes@.len(),
                old(self)@.len() as int,
            ),
    {
        let n = bytes.len();
        let mut i: usize = 0;
        while i < n
            invariant
                i <= n,
                n == bytes@.len(),
                at + n <= self.capacity,
                self.wf(),
                self.capacity == old(self).capacity,
                self.str_buffer@.len() == old(self).str_buffer@.len(),
                forall|k: int| 0 <= k < at ==> self.str_buffer@[k] == old(self).str_buffer@[k],
                forall|k: int|
                    at <= k < at + i ==> self.str_buffer@[k] == bytes@[k - at],
                forall|k: int|
                    at + i <= k < self.str_buffer@.len() ==> self.str_buffer@[k] == old(
                        self,
                    ).str_buffer@[k],
            decreases n - i,
        {
            self.str_buffer.set(at + i, bytes[i]);
            i = i + 1;
        }
        assert(self@ =~= old(self)@.subrange(0, at as int) + bytes@ + old(self)@.subrange(
            at + bytes@.len(),
            old(self)@.len() as int,
        ));
    }

    /// The layout of the allocation that holds a block of `capacity` bytes:
    /// the two-word header extended by the buffer and padded to the header's
    /// alignment. It depends on `capacity` alone, so the same value gives the
    /// same layout whenever it is computed.
    pub fn layout(capacity: usize) -> (r: BlockLayout)
        requires
            capacity <= MAX_CAPACITY,
        ensures
            r.align == word_bytes(),
            r.size == block_size(capacity as int),
            r.size % r.align == 0,
            r.size >= 2 * word_bytes() + capacity,
            r.size <= isize::MAX,
    {
        let word = core::mem::size_of::<usize>();
        assert(word == 4 || word == 8) by {
            assert(word * 8 == usize::BITS);
        }
        let raw = 2 * word + capacity;
        let rem = raw % word;
        let size = if rem == 0 {
            raw
        } else {
            raw + (word - rem)
        };
        assert(size % word == 0) by (nonlinear_arith)
            requires
                word > 0,
                rem == raw % word,
                rem == 0 ==> size == raw,
                rem != 0 ==> size == raw + (word - rem),
        {
            assert(raw == word * (raw / word) + rem);
            if rem != 0 {
                assert(size == word * (raw / word + 1));
            }
        }
        BlockLayout { size, align: word }
    }
}

} // verus!
