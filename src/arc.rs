use std::sync::Arc;
use vstd::prelude::*;
use vstd::utf8::*;
use vstd::arithmetic::power2::{pow2, lemma_pow2_pos, lemma_pow2_unfold, lemma2_to64};
use vstd::string::StringSliceAdditionalSpecFns;
use crate::heap::{ArcStringInner, MAX_CAPACITY};

verus! {

broadcast use {
    vstd::utf8::encode_utf8_valid_utf8,
    vstd::utf8::encode_utf8_decode_utf8,
    vstd::utf8::decode_utf8_encode_utf8,
    vstd::utf8::valid_utf8_concat,
};

/// The UTF-8 encoding of a single character.
pub open spec fn char_bytes(ch: char) -> Seq<u8> {
    encode_utf8(seq![ch])
}

/// The last character of the text that `bytes` encode.
pub open spec fn last_char(bytes: Seq<u8>) -> char {
    decode_utf8(bytes).last()
}

/// What is left of `bytes` once the encoding of its last character is removed.
pub open spec fn without_last_char(bytes: Seq<u8>) -> Seq<u8> {
    encode_utf8(decode_utf8(bytes).drop_last())
}

/// The capacity that growth picks when `additional` more bytes do not fit:
/// the larger of one and a half times the current capacity and the current
/// capacity plus `additional`, held to the largest capacity a block may have.
pub open spec fn grown_capacity(capacity: int, additional: int) -> int {
    let amortized = capacity + capacity / 2;
    let required = capacity + additional;
    let target = if amortized > required {
        amortized
    } else {
        required
    };
    if target > MAX_CAPACITY {
        MAX_CAPACITY as int
    } else {
        target
    }
}

/// The capacity a handle has after making room for `additional` more bytes:
/// unchanged where they already fit, grown otherwise.
pub open spec fn reserved_capacity(len: int, capacity: int, additional: int) -> int {
    if additional <= capacity - len {
        capacity
    } else {
        grown_capacity(capacity, additional)
    }
}

/// The bytes of `strs`, one after another.
pub open spec fn joined_bytes(strs: Seq<&str>) -> Seq<u8>
    decreases strs.len(),
{
    if strs.len() == 0 {
        Seq::empty()
    } else {
        joined_bytes(strs.drop_last()) + strs.last().spec_bytes()
    }
}

/// The bytes of the owned strings `strs`, one after another.
pub open spec fn joined_string_bytes(strs: Seq<String>) -> Seq<u8>
    decreases strs.len(),
{
    if strs.len() == 0 {
        Seq::empty()
    } else {
        joined_string_bytes(strs.drop_last()) + encode_utf8(strs.last()@)
    }
}

/// The bytes of a prefix of `strs` are no more than the bytes of all of them.
proof fn lemma_joined_string_prefix(strs: Seq<String>, i: int)
    requires
        0 <= i <= strs.len(),
    ensures
        joined_string_bytes(strs.subrange(0, i)).len() <= joined_string_bytes(strs).len(),
    decreases strs.len(),
{
    if i == strs.len() {
        assert(strs.subrange(0, i) =~= strs);
    } else {
        assert(strs.drop_last().subrange(0, i) =~= strs.subrange(0, i));
        lemma_joined_string_prefix(strs.drop_last(), i);
    }
}

/// The bytes of a prefix of `strs` are no more than the bytes of all of them.
proof fn lemma_joined_prefix(strs: Seq<&str>, i: int)
    requires
        0 <= i <= strs.len(),
    ensures
        joined_bytes(strs.subrange(0, i)).len() <= joined_bytes(strs).len(),
    decreases strs.len(),
{
    if i == strs.len() {
        assert(strs.subrange(0, i) =~= strs);
    } else {
        assert(strs.drop_last().subrange(0, i) =~= strs.subrange(0, i));
        lemma_joined_prefix(strs.drop_last(), i);
    }
}

/// A character takes at least one byte.
proof fn lemma_encode_utf8_len(chars: Seq<char>)
    ensures
        encode_utf8(chars).len() >= chars.len(),
    decreases chars.len(),
{
    if chars.len() > 0 {
        lemma_encode_utf8_len(chars.drop_first());
        lemma_char_bytes(chars[0]);
    }
}

/// Encoding a concatenation is concatenating the encodings.
pub proof fn lemma_encode_utf8_concat(a: Seq<char>, b: Seq<char>)
    ensures
        encode_utf8(a + b) == encode_utf8(a) + encode_utf8(b),
    decreases a.len(),
{
    if a.len() == 0 {
        assert(a + b =~= b);
    } else {
        assert((a + b).drop_first() =~= a.drop_first() + b);
        lemma_encode_utf8_concat(a.drop_first(), b);
    }
}

/// The encoding of one character is its scalar's encoding, one to four bytes.
pub proof fn lemma_char_bytes(ch: char)
    ensures
        char_bytes(ch) == encode_scalar(ch as u32),
        1 <= encode_scalar(ch as u32).len() <= 4,
{
    assert(seq![ch].drop_first() =~= Seq::<char>::empty());
    assert(encode_utf8(Seq::<char>::empty()) == Seq::<u8>::empty());
    assert(seq![ch][0] == ch);
    assert(encode_scalar(ch as u32) + Seq::<u8>::empty() =~= encode_scalar(ch as u32));
}

/// Relies on `Arc::clone`: the new `Arc` points at the same block, whose
/// reference count is raised by one.
#[verifier::external_body]
fn share_block(ptr: &Arc<ArcStringInner>) -> (r: Arc<ArcStringInner>)
    ensures
        r == *ptr,
{
    Arc::clone(ptr)
}

/// Relies on `Arc::get_mut`: it hands out the block for writing exactly when no
/// other `Arc` shares it, and `None`, with the `Arc` untouched, otherwise.
#[verifier::external_body]
fn claim_block(ptr: &mut Arc<ArcStringInner>) -> (r: Option<&mut ArcStringInner>)
    ensures
        match r {
            None => *final(ptr) == *old(ptr),
            Some(block) => *block == *old(ptr) && *final(ptr) == *final(block),
        },
{
    Arc::get_mut(ptr)
}

/// Relies on `core::str::from_utf8`: valid UTF-8 is accepted as a `str` of
/// exactly those bytes.
#[verifier::external_body]
fn utf8_text(bytes: &[u8]) -> (r: &str)
    requires
        valid_utf8(bytes@),
    ensures
        r.spec_bytes() == bytes@,
{
    core::str::from_utf8(bytes).unwrap()
}

/// Relies on `char::encode_utf8`: the UTF-8 encoding of `ch`.
#[verifier::external_body]
fn utf8_of_char(ch: char) -> (r: Vec<u8>)
    ensures
        r@ == char_bytes(ch),
{
    let mut buf = [0u8; 4];
    ch.encode_utf8(&mut buf).as_bytes().to_vec()
}

/// Relies on `str::chars` read from the back: the last character, if any.
#[verifier::external_body]
fn last_char_of(s: &str) -> (r: Option<char>)
    ensures
        s@.len() == 0 ==> r is None,
        s@.len() > 0 ==> r == Some(s@.last()),
{
    s.chars().next_back()
}

/// Number of bytes in the UTF-8 encoding of `ch`.
pub fn utf8_len(ch: char) -> (r: usize)
    ensures
        r == char_bytes(ch).len(),
        1 <= r <= 4,
{
    proof {
        lemma_char_bytes(ch);
    }
    let v = ch as u32;
    if v <= 0x7f {
        1
    } else if v <= 0x7ff {
        2
    } else if v <= 0xffff {
        3
    } else {
        4
    }
}

/// A handle on a shared heap block: the number of committed bytes and the
/// block. Handles that share a block never write to it; a handle that is
/// about to write first makes sure the block is its own.
pub struct ArcString {
    len: usize,
    ptr: Arc<ArcStringInner>,
}

impl View for ArcString {
    type V = Seq<u8>;

    /// The committed bytes: the first `len` bytes of the block.
    closed spec fn view(&self) -> Seq<u8> {
        self.ptr@.subrange(0, self.len as int)
    }
}

impl ArcString {
    /// The capacity of the block the handle points at.
    pub closed spec fn spec_capacity(&self) -> nat {
        self.ptr.spec_capacity()
    }

    /// The committed text, as characters.
    pub open spec fn text(&self) -> Seq<char> {
        decode_utf8(self@)
    }

    /// The block is well formed, the committed length is within its capacity,
    /// and the committed bytes are valid UTF-8.
    pub closed spec fn wf(&self) -> bool {
        &&& self.ptr.wf()
        &&& self.len <= self.ptr.spec_capacity()
        &&& valid_utf8(self@)
    }

    proof fn lemma_view_len(&self)
        requires
            self.wf(),
        ensures
            self@.len() == self.len,
            self.spec_capacity() <= MAX_CAPACITY,
    {
    }

    /// A handle on a new block of `text.len() + additional` bytes that holds
    /// `text` at its start; the rest is room to grow.
    pub fn new(text: &str, additional: usize) -> (r: ArcString)
        requires
            text.spec_bytes().len() + additional <= MAX_CAPACITY,
        ensures
            r.wf(),
            r@ == text.spec_bytes(),
            r.text() == text@,
            r.spec_capacity() == text.spec_bytes().len() + additional,
    {
        let bytes = text.as_bytes();
        let len = bytes.len();
        let capacity = len + additional;
        let mut block = ArcStringInner::with_capacity(capacity);
        block.write_at(0, bytes);
        let r = ArcString { len, ptr: Arc::new(block) };
        assert(r@ =~= text.spec_bytes());
        r
    }

    /// A handle on `text` with no room to spare.
    pub fn from(text: &str) -> (r: ArcString)
        requires
            text.spec_bytes().len() <= MAX_CAPACITY,
        ensures
            r.wf(),
            r@ == text.spec_bytes(),
            r.text() == text@,
            r.spec_capacity() == text.spec_bytes().len(),
    {
        ArcString::new(text, 0)
    }

    /// Number of committed bytes.
    pub fn len(&self) -> (r: usize)
        requires
            self.wf(),
        ensures
            r == self@.len(),
    {
        proof {
            self.lemma_view_len();
        }
        self.len
    }

    /// Capacity of the block.
    pub fn capacity(&self) -> (r: usize)
        ensures
            r == self.spec_capacity(),
    {
        self.ptr.capacity()
    }

    /// The committed bytes.
    pub fn as_slice(&self) -> (r: &[u8])
        requires
            self.wf(),
        ensures
            r@ == self@,
    {
        proof {
            self.lemma_view_len();
        }
        vstd::slice::slice_subrange(self.ptr.as_bytes(), 0, self.len)
    }

    /// The committed text; it always decodes, as the bytes are kept valid UTF-8.
    pub fn as_str(&self) -> (r: &str)
        requires
            self.wf(),
        ensures
            r.spec_bytes() == self@,
            r@ == self.text(),
    {
        let r = utf8_text(self.as_slice());
        proof {
            assert(decode_utf8(encode_utf8(r@)) == r@);
        }
        r
    }

    /// Makes sure `additional` more bytes fit after the committed ones. Where
    /// they do not, the content moves to a new block whose capacity is
    /// `grown_capacity`: at least one and a half times the old one, so that a
    /// run of small appends moves the content only a logarithmic number of
    /// times.
    pub fn reserve(&mut self, additional: usize)
        requires
            old(self).wf(),
            old(self)@.len() + additional <= MAX_CAPACITY,
        ensures
            final(self).wf(),
            final(self)@ == old(self)@,
            final(self).spec_capacity() == reserved_capacity(
                old(self)@.len() as int,
                old(self).spec_capacity() as int,
                additional as int,
            ),
            final(self).spec_capacity() - final(self)@.len() >= additional,
    {
        proof {
            self.lemma_view_len();
        }
        let capacity = self.capacity();
        if additional > capacity - self.len {
            let required = capacity + additional;
            let amortized = capacity + capacity / 2;
            let target = if amortized > required {
                amortized
            } else {
                required
            };
            let new_capacity = if target > MAX_CAPACITY {
                MAX_CAPACITY
            } else {
                target
            };
            let fresh = ArcString::new(self.as_str(), new_capacity - self.len);
            *self = fresh;
        }
    }

    /// The copy-on-write gate followed by a write: `bytes` go into the block
    /// right after the committed bytes. Where the block is shared, the handle
    /// first moves to a private copy of the same capacity, so other handles
    /// never see the write. The committed length stays as it was.
    fn make_mut_and_write(&mut self, bytes: &[u8])
        requires
            old(self).wf(),
            old(self)@.len() + bytes@.len() <= old(self).spec_capacity(),
        ensures
            final(self).wf(),
            final(self).len == old(self).len,
            final(self)@ == old(self)@,
            final(self).spec_capacity() == old(self).spec_capacity(),
            final(self).ptr@.subrange(0, old(self).len + bytes@.len()) == old(self)@ + bytes@,
    {
        proof {
            self.lemma_view_len();
        }
        let len = self.len;
        match claim_block(&mut self.ptr) {
            Some(block) => {
                block.write_at(len, bytes);
            },
            None => {
                let mut block = ArcStringInner::with_capacity(self.capacity());
                block.write_at(0, self.as_slice());
                block.write_at(len, bytes);
                self.ptr = Arc::new(block);
            },
        }
        assert(self@ =~= old(self)@);
        assert(self.ptr@.subrange(0, len + bytes@.len()) =~= old(self)@ + bytes@);
    }

    /// Appends bytes that are valid UTF-8 on their own.
    fn push_bytes(&mut self, bytes: &[u8])
        requires
            old(self).wf(),
            valid_utf8(bytes@),
            old(self)@.len() + bytes@.len() <= MAX_CAPACITY,
        ensures
            final(self).wf(),
            final(self)@ == old(self)@ + bytes@,
            final(self).spec_capacity() == reserved_capacity(
                old(self)@.len() as int,
                old(self).spec_capacity() as int,
                bytes@.len() as int,
            ),
    {
        self.reserve(bytes.len());
        self.make_mut_and_write(bytes);
        proof {
            self.lemma_view_len();
        }
        self.len = self.len + bytes.len();
        assert(self@ =~= old(self)@ + bytes@);
    }

    /// Appends `ch`.
    pub fn push(&mut self, ch: char)
        requires
            old(self).wf(),
            old(self)@.len() + char_bytes(ch).len() <= MAX_CAPACITY,
        ensures
            final(self).wf(),
            final(self)@ == old(self)@ + char_bytes(ch),
            final(self).text() == old(self).text().push(ch),
            final(self).spec_capacity() == reserved_capacity(
                old(self)@.len() as int,
                old(self).spec_capacity() as int,
                char_bytes(ch).len() as int,
            ),
    {
        let bytes = utf8_of_char(ch);
        self.push_bytes(bytes.as_slice());
        proof {
            assert(old(self)@ == encode_utf8(old(self).text()));
            lemma_encode_utf8_concat(old(self).text(), seq![ch]);
            assert(old(self).text() + seq![ch] =~= old(self).text().push(ch));
        }
    }

    /// Appends the bytes of `s`.
    pub fn push_str(&mut self, s: &str)
        requires
            old(self).wf(),
            old(self)@.len() + s.spec_bytes().len() <= MAX_CAPACITY,
        ensures
            final(self).wf(),
            final(self)@ == old(self)@ + s.spec_bytes(),
            final(self).text() == old(self).text() + s@,
            final(self).spec_capacity() == reserved_capacity(
                old(self)@.len() as int,
                old(self).spec_capacity() as int,
                s.spec_bytes().len() as int,
            ),
    {
        self.push_bytes(s.as_bytes());
        proof {
            assert(old(self)@ == encode_utf8(old(self).text()));
            lemma_encode_utf8_concat(old(self).text(), s@);
        }
    }

    /// Removes the last character and returns it, or `None` where there is
    /// none. Only the committed length shrinks: the block is not written, so
    /// this needs no private copy.
    pub fn pop(&mut self) -> (r: Option<char>)
        requires
            old(self).wf(),
        ensures
            final(self).wf(),
            final(self).spec_capacity() == old(self).spec_capacity(),
            old(self)@.len() == 0 ==> r is None && final(self)@ == old(self)@,
            old(self)@.len() > 0 ==> r == Some(last_char(old(self)@)) && final(self)@
                == without_last_char(old(self)@),
            old(self)@.len() > 0 ==> final(self).text() == old(self).text().drop_last(),
    {
        proof {
            self.lemma_view_len();
        }
        match last_char_of(self.as_str()) {
            None => {
                proof {
                    assert(old(self)@ == encode_utf8(old(self).text()));
                }
                None
            },
            Some(ch) => {
                let ghost text = old(self).text();
                proof {
                    assert(old(self)@ == encode_utf8(text));
                    assert(text.drop_last() + seq![ch] =~= text);
                    lemma_encode_utf8_concat(text.drop_last(), seq![ch]);
                }
                let n = utf8_len(ch);
                self.len = self.len - n;
                assert(self@ =~= encode_utf8(text.drop_last()));
                Some(ch)
            },
        }
    }

    /// Appends each character of `chars` in turn, making room once up front
    /// for at least one byte per character.
    pub fn extend_chars(&mut self, chars: Vec<char>)
        requires
            old(self).wf(),
            old(self)@.len() + encode_utf8(chars@).len() <= MAX_CAPACITY,
        ensures
            final(self).wf(),
            final(self)@ == old(self)@ + encode_utf8(chars@),
    {
        proof {
            lemma_encode_utf8_len(chars@);
        }
        if chars.len() > 0 {
            self.reserve(chars.len());
        }
        let ghost start = self@;
        let mut i: usize = 0;
        while i < chars.len()
            invariant
                i <= chars@.len(),
                self.wf(),
                start == old(self)@,
                start.len() + encode_utf8(chars@).len() <= MAX_CAPACITY,
                self@ == start + encode_utf8(chars@.subrange(0, i as int)),
            decreases chars@.len() - i,
        {
            let ghost done = chars@.subrange(0, i as int);
            proof {
                assert(chars@.subrange(0, i + 1) =~= done + seq![chars@[i as int]]);
                lemma_encode_utf8_concat(done, seq![chars@[i as int]]);
                assert(chars@ =~= chars@.subrange(0, i + 1) + chars@.subrange(
                    i + 1,
                    chars@.len() as int,
                ));
                lemma_encode_utf8_concat(
                    chars@.subrange(0, i + 1),
                    chars@.subrange(i + 1, chars@.len() as int),
                );
            }
            self.push(chars[i]);
            i = i + 1;
        }
        assert(chars@.subrange(0, i as int) =~= chars@);
    }

    /// Appends each string of `strs` in turn.
    pub fn extend_strs(&mut self, strs: Vec<&str>)
        requires
            old(self).wf(),
            old(self)@.len() + joined_bytes(strs@).len() <= MAX_CAPACITY,
        ensures
            final(self).wf(),
            final(self)@ == old(self)@ + joined_bytes(strs@),
    {
        let mut i: usize = 0;
        while i < strs.len()
            invariant
                i <= strs@.len(),
                self.wf(),
                old(self)@.len() + joined_bytes(strs@).len() <= MAX_CAPACITY,
                self@ == old(self)@ + joined_bytes(strs@.subrange(0, i as int)),
            decreases strs@.len() - i,
        {
            proof {
                assert(strs@.subrange(0, i + 1).drop_last() =~= strs@.subrange(0, i as int));
                lemma_joined_prefix(strs@, i + 1);
            }
            self.push_str(strs[i]);
            i = i + 1;
            assert(self@ =~= old(self)@ + joined_bytes(strs@.subrange(0, i as int)));
        }
        assert(strs@.subrange(0, i as int) =~= strs@);
    }

    /// Appends each owned string of `strs` in turn.
    pub fn extend_strings(&mut self, strs: Vec<String>)
        requires
            old(self).wf(),
            old(self)@.len() + joined_string_bytes(strs@).len() <= MAX_CAPACITY,
        ensures
            final(self).wf(),
            final(self)@ == old(self)@ + joined_string_bytes(strs@),
    {
        let mut i: usize = 0;
        while i < strs.len()
            invariant
                i <= strs@.len(),
                self.wf(),
                old(self)@.len() + joined_string_bytes(strs@).len() <= MAX_CAPACITY,
                self@ == old(self)@ + joined_string_bytes(strs@.subrange(0, i as int)),
            decreases strs@.len() - i,
        {
            proof {
                assert(strs@.subrange(0, i + 1).drop_last() =~= strs@.subrange(0, i as int));
                lemma_joined_string_prefix(strs@, i + 1);
            }
            self.push_str(strs[i].as_str());
            i = i + 1;
            assert(self@ =~= old(self)@ + joined_string_bytes(strs@.subrange(0, i as int)));
        }
        assert(strs@.subrange(0, i as int) =~= strs@);
    }
}

/// Constructing a handle from a text, with any room to spare, and reading it
/// back gives that text, as bytes and as characters.
pub proof fn lemma_round_trip(text: &str, additional: usize, h: ArcString)
    requires
        call_ensures(ArcString::new, (text, additional), h),
    ensures
        h.wf(),
        h@ == text.spec_bytes(),
        h.text() == text@,
{
}

/// A clone reads the same as the handle it was cloned from.
pub proof fn lemma_clone_transparent(h: ArcString, c: ArcString)
    requires
        h.wf(),
        call_ensures(ArcString::clone, (&h,), c),
    ensures
        c.wf(),
        c@ == h@,
        c.text() == h.text(),
{
}

/// After a clone, appending a character to one handle changes what that
/// handle reads and leaves what the other reads as it was.
pub proof fn lemma_clone_then_push_isolated(h: ArcString, c: ArcString, pushed: ArcString, ch: char)
    requires
        h.wf(),
        call_ensures(ArcString::clone, (&h,), c),
        pushed@ == h@ + char_bytes(ch),
    ensures
        c@ == h@,
        pushed@ != c@,
{
    lemma_char_bytes(ch);
    assert(pushed@.len() > c@.len());
}

/// Where a handle must grow, its new capacity holds what is asked for, and is
/// at least one and a half times the old capacity unless that would pass the
/// largest capacity. Growth is therefore geometric: appending `n` bytes one at
/// a time moves the content only a logarithmic number of times.
pub proof fn lemma_growth_geometric(len: int, capacity: int, additional: int)
    requires
        0 <= len <= capacity <= MAX_CAPACITY,
        0 <= additional,
        len + additional <= MAX_CAPACITY,
        additional > capacity - len,
    ensures
        grown_capacity(capacity, additional) >= len + additional,
        grown_capacity(capacity, additional) > capacity,
        grown_capacity(capacity, additional) == MAX_CAPACITY || grown_capacity(capacity, additional)
            >= capacity + capacity / 2,
        grown_capacity(capacity, additional) <= MAX_CAPACITY,
{
}

/// The smallest capacity a handle that started on an empty block can have
/// once appends have moved its content `moves` times.
pub open spec fn min_capacity_after(moves: nat) -> int
    decreases moves,
{
    if moves == 0 {
        0
    } else {
        grown_capacity(min_capacity_after((moves - 1) as nat), 1)
    }
}

/// Growth never gives less to a larger block or a larger request.
pub proof fn lemma_grown_monotone(c1: int, a1: int, c2: int, a2: int)
    requires
        0 <= c1 <= c2,
        a1 <= a2,
    ensures
        grown_capacity(c1, a1) <= grown_capacity(c2, a2),
{
}

proof fn lemma_min_capacity_bounds(moves: nat)
    ensures
        0 <= min_capacity_after(moves) <= MAX_CAPACITY,
    decreases moves,
{
    if moves > 0 {
        lemma_min_capacity_bounds((moves - 1) as nat);
    }
}

/// Two moves at least double a capacity of four or more, unless they reach
/// the largest capacity.
proof fn lemma_two_moves_double(c: int)
    requires
        4 <= c <= MAX_CAPACITY,
    ensures
        grown_capacity(grown_capacity(c, 1), 1) == MAX_CAPACITY || grown_capacity(
            grown_capacity(c, 1),
            1,
        ) >= 2 * c,
{
}

/// The number of times appends move a handle's content is logarithmic in its
/// capacity: after `4 + 2 * j` moves the capacity is at least `4 * 2^j`
/// (or the largest capacity). By `lemma_grown_monotone`, a handle that
/// started on any block and asked for any amount each time has at least
/// this much.
pub proof fn lemma_moves_logarithmic(j: nat)
    ensures
        min_capacity_after(4 + 2 * j) == MAX_CAPACITY || min_capacity_after(4 + 2 * j) >= 4
            * pow2(j),
    decreases j,
{
    lemma_min_capacity_bounds(4 + 2 * j);
    if j == 0 {
        reveal_with_fuel(min_capacity_after, 5);
        lemma2_to64();
        assert(min_capacity_after(4) == 4);
    } else {
        let prev = (j - 1) as nat;
        lemma_moves_logarithmic(prev);
        lemma_min_capacity_bounds(4 + 2 * prev);
        lemma_pow2_unfold(j);
        lemma_pow2_pos(prev);
        let m = min_capacity_after(4 + 2 * prev);
        assert(min_capacity_after((4 + 2 * prev + 1) as nat) == grown_capacity(m, 1));
        assert(min_capacity_after(4 + 2 * j) == grown_capacity(grown_capacity(m, 1), 1));
        if m != MAX_CAPACITY {
            lemma_two_moves_double(m);
        }
    }
}

/// Removing the last character of valid UTF-8 content and appending it again
/// gives the content back, with the same length.
pub proof fn lemma_pop_push_inverse(bytes: Seq<u8>)
    requires
        valid_utf8(bytes),
        bytes.len() > 0,
    ensures
        without_last_char(bytes) + char_bytes(last_char(bytes)) == bytes,
        decode_utf8(bytes).len() > 0,
{
    let text = decode_utf8(bytes);
    assert(encode_utf8(text) == bytes);
    if text.len() == 0 {
        assert(encode_utf8(text) == Seq::<u8>::empty());
    }
    assert(text.drop_last() + seq![text.last()] =~= text);
    lemma_encode_utf8_concat(text.drop_last(), seq![text.last()]);
}

/// The committed bytes of every well-formed handle are valid UTF-8, so
/// reading them as text never fails.
pub proof fn lemma_committed_valid_utf8(h: ArcString)
    requires
        h.wf(),
    ensures
        valid_utf8(h@),
        encode_utf8(h.text()) == h@,
{
}

impl Clone for ArcString {
    /// Another handle on the same block: the reference count goes up by one,
    /// nothing is copied.
    fn clone(&self) -> (r: Self)
        ensures
            r == *self,
    {
        ArcString { len: self.len, ptr: share_block(&self.ptr) }
    }
}

} // verus!
