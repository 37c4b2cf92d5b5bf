//! Fixed-width big-endian packing of scalars and tuples into caller-owned
//! byte buffers, without allocation.
//!
//! A kind of value implements [`Pack`]: it has a constant width, an encoding of
//! exactly that many bytes, and a decoding that reads them back. The trait
//! states the wire format as ghost functions, and every implementation proves
//! that its executable code produces and consumes exactly those bytes.
pub mod big_endian;
pub mod boolean;
pub mod laws;
pub mod signed;
pub mod special;
pub mod tuple;
pub mod unsigned;

use vstd::prelude::*;

verus! {

/// A kind of value with a fixed-width wire encoding.
///
/// The ghost functions [`width`](Pack::width), [`encoding`](Pack::encoding) and
/// [`decoding`](Pack::decoding) are the wire format; the proof functions are
/// the laws that every implementation owes; the executable functions are
/// specified against the ghost ones.
pub trait Pack: Sized {
    /// The number of bytes that a value of this kind takes once packed.
    ///
    /// It is [`width`](Pack::width) as a machine number, see
    /// [`lemma_size`](Pack::lemma_size).
    const SIZE: usize;

    /// The width of the kind: the same for every value of it.
    spec fn width() -> nat;

    /// The bytes that stand for the value on the wire.
    spec fn encoding(&self) -> Seq<u8>;

    /// The value that `bytes` stand for. Every sequence of
    /// [`width`](Pack::width) bytes stands for a value.
    spec fn decoding(bytes: Seq<u8>) -> Self
        recommends
            bytes.len() == Self::width(),
    ;

    /// Whether the value lies within the bit range of the kind. Such a value
    /// survives packing and unpacking.
    spec fn representable(&self) -> bool;

    /// `SIZE` is the width, whenever the width is a machine number at all.
    ///
    /// The width of a tuple is the sum of the widths of its members, which is
    /// a number whether or not a `usize` can hold it; `SIZE` is that sum
    /// computed in `usize`.
    proof fn lemma_size()
        ensures
            Self::width() <= usize::MAX ==> Self::SIZE == Self::width(),
    ;

    /// Every value encodes to exactly `width` bytes.
    proof fn lemma_encoding_len(&self)
        ensures
            self.encoding().len() == Self::width(),
    ;

    /// Decoding undoes encoding for every representable value.
    proof fn lemma_round_trip(&self)
        requires
            self.representable(),
        ensures
            Self::decoding(self.encoding()) == *self,
    ;

    /// What comes out of decoding is representable.
    proof fn lemma_decoding_representable(bytes: Seq<u8>)
        requires
            bytes.len() == Self::width(),
        ensures
            Self::decoding(bytes).representable(),
    ;

    /// Writes the encoding of `self` over the first `width` bytes of `buf` and
    /// leaves the rest of `buf` as it was. What `buf` held there before makes
    /// no difference.
    ///
    /// `buf` has to hold at least `width` bytes.
    fn pack(&self, buf: &mut [u8])
        requires
            old(buf)@.len() >= Self::width(),
        ensures
            final(buf)@ == self.encoding() + old(buf)@.skip(Self::width() as int),
            final(buf)@.len() == old(buf)@.len(),
    ;

    /// Reads a value from the first `width` bytes of `buf`. What `buf` holds
    /// behind them makes no difference.
    ///
    /// `buf` has to hold at least `width` bytes.
    fn unpack(buf: &[u8]) -> (value: Self)
        requires
            buf@.len() >= Self::width(),
        ensures
            value == Self::decoding(buf@.take(Self::width() as int)),
    ;

    /// Reads a value from the front of `buf` and moves `buf` past it, if `buf`
    /// holds at least `width` bytes; if it holds fewer, returns `None` and
    /// leaves `buf` as it was.
    ///
    /// The width has to fit in a `usize`, as that of every scalar kind does,
    /// and that of every tuple whose members' widths add up in `usize`.
    fn unpack_it(buf: &mut &[u8]) -> (value: Option<Self>)
        requires
            Self::width() <= usize::MAX,
        ensures
            match value {
                Some(v) => {
                    &&& old(buf)@.len() >= Self::width()
                    &&& v == Self::decoding(old(buf)@.take(Self::width() as int))
                    &&& final(buf)@ == old(buf)@.skip(Self::width() as int)
                },
                None => {
                    &&& old(buf)@.len() < Self::width()
                    &&& final(buf)@ == old(buf)@
                },
            },
    {
        proof {
            Self::lemma_size();
        }
        if buf.len() < Self::SIZE {
            return None;
        }
        let val = Self::unpack(*buf);
        *buf = &buf[Self::SIZE..buf.len()];
        Some(val)
    }

    /// Reads a value from the front of `buf` and moves `buf` past it, without
    /// looking at the length of `buf` first.
    ///
    /// `buf` has to hold at least `width` bytes.
    fn unpack_it_unchecked(buf: &mut &[u8]) -> (value: Self)
        requires
            old(buf)@.len() >= Self::width(),
        ensures
            value == Self::decoding(old(buf)@.take(Self::width() as int)),
            final(buf)@ == old(buf)@.skip(Self::width() as int),
    {
        proof {
            Self::lemma_size();
        }
        let val = Self::unpack(*buf);
        *buf = &buf[Self::SIZE..buf.len()];
        val
    }
}

} // verus!
