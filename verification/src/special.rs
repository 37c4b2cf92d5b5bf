//! A signed integer of 48 bits, kept in an `i64` and packed into six bytes.
use crate::big_endian::{
    be_bytes, be_signed_value, be_value, lemma_be_bytes_len, lemma_be_bytes_next,
    lemma_be_signed_value_fits, lemma_be_signed_value_of_bytes, lemma_be_value_bound,
    lemma_be_value_next, lemma_radix_monotonic, lemma_radix_values,
};
use crate::Pack;
use core::ops::Deref;
use vstd::prelude::*;

verus! {

/// A signed integer that goes over the wire in six bytes.
///
/// It holds any `i64`: nothing checks the range when one is made. Packing
/// keeps the low 48 bits, so exactly the values from `-2^47` up to, but not
/// including, `2^47` come back from unpacking as they went in.
pub struct I48(i64);

impl View for I48 {
    type V = int;

    /// The number held.
    closed spec fn view(&self) -> int {
        self.0 as int
    }
}

impl I48 {
    /// The `I48` that holds `value`.
    pub closed spec fn spec_new(value: i64) -> I48 {
        I48(value)
    }

    /// An `I48` holds what it was made of.
    pub proof fn lemma_spec_new(value: i64)
        ensures
            Self::spec_new(value)@ == value,
    {
    }

    /// An `I48` is made of the number that it holds, which is an `i64`.
    pub proof fn lemma_view(self)
        ensures
            i64::MIN <= self@ <= i64::MAX,
            self == Self::spec_new(self@ as i64),
    {
    }

    /// Hands out the number held.
    pub fn into_inner(self) -> (value: i64)
        ensures
            value == self@,
    {
        self.0
    }
}

impl From<i64> for I48 {
    fn from(value: i64) -> (this: Self)
        ensures
            this@ == value,
    {
        Self(value)
    }
}

impl vstd::std_specs::convert::FromSpecImpl<i64> for I48 {
    open spec fn obeys_from_spec() -> bool {
        true
    }

    open spec fn from_spec(value: i64) -> Self {
        Self::spec_new(value)
    }
}

impl Deref for I48 {
    type Target = i64;

    fn deref(&self) -> (value: &i64)
        ensures
            *value == self@,
    {
        &self.0
    }
}

impl AsRef<i64> for I48 {
    fn as_ref(&self) -> (value: &i64)
        ensures
            *value == self@,
    {
        &self.0
    }
}

impl Pack for I48 {
    const SIZE: usize = 6;

    open spec fn width() -> nat {
        6
    }

    /// The low 48 bits of the number held, as six bytes of big-endian two's
    /// complement. Bits above the 48th are dropped.
    open spec fn encoding(&self) -> Seq<u8> {
        be_bytes(self@, 6)
    }

    /// What six bytes spell in two's complement, sign-extended to 64 bits.
    open spec fn decoding(bytes: Seq<u8>) -> Self {
        I48::spec_new(be_signed_value(bytes) as i64)
    }

    /// From `-2^47` up to, but not including, `2^47`.
    open spec fn representable(&self) -> bool {
        -0x8000_0000_0000 <= self@ < 0x8000_0000_0000
    }

    proof fn lemma_size() {
        assert(Self::SIZE == 6);
    }

    proof fn lemma_encoding_len(&self) {
        lemma_be_bytes_len(self@, 6);
    }

    proof fn lemma_round_trip(&self) {
        lemma_radix_values();
        lemma_be_signed_value_of_bytes(self@, 6);
    }

    proof fn lemma_decoding_representable(bytes: Seq<u8>) {
        lemma_radix_values();
        lemma_be_signed_value_fits(bytes);
    }

    fn pack(&self, buf: &mut [u8]) {
        let mut this: i64 = self.0;
        let mut i: usize = 1;
        while i <= Self::SIZE
            invariant
                1 <= i <= 7,
                buf@.len() == old(buf)@.len(),
                buf@.len() >= 6,
                buf@.skip(6) == old(buf)@.skip(6),
                be_bytes(self@, 6) == be_bytes(this as int, (7 - i) as nat) + buf@.subrange(
                    7 - i,
                    6,
                ),
            decreases 7 - i,
        {
            let ghost before: Seq<u8> = buf@;
            assert((this & 0xFF) as u8 == this % 256 && this >> 8 == this / 256) by (bit_vector);
            buf[Self::SIZE - i] = (this & 0xFF) as u8;
            proof {
                lemma_be_bytes_next(this as int, (7 - i) as nat, before.subrange(7 - i, 6));
                assert(buf@.subrange(6 - i, 6) =~= seq![(this % 256) as u8] + before.subrange(
                    7 - i,
                    6,
                ));
                assert(buf@.skip(6) =~= before.skip(6));
            }
            this = this >> 8;
            i += 1;
        }
        assert(buf@ =~= buf@.subrange(0, 6) + buf@.skip(6));
    }

    fn unpack(buf: &[u8]) -> (value: Self)
        ensures
            value@ == be_signed_value(buf@.take(6)),
    {
        let mut this: i64 = 0;
        let mut i: usize = 0;
        while i < Self::SIZE
            invariant
                i <= 6,
                buf@.len() >= 6,
                this == be_value(buf@.take(i as int)),
            decreases 6 - i,
        {
            let b: u8 = buf[i];
            proof {
                lemma_be_value_next(buf@, i as int);
                lemma_be_value_bound(buf@.take(i + 1));
                lemma_radix_monotonic((i + 1) as nat, 6);
                lemma_radix_values();
            }
            assert((this << 8) | (b as i64) == 256 * this + b) by (bit_vector)
                requires
                    0 <= this,
                    256 * this + b < 0x1_0000_0000_0000,
            ;
            this = this << 8;
            this |= b as i64;
            i += 1;
        }
        proof {
            lemma_be_value_bound(buf@.take(6));
            lemma_radix_values();
        }
        // Extending two's complement
        let ghost unsigned: i64 = this;
        assert(unsigned & (1i64 << 47) != 0 <==> unsigned >= 0x8000_0000_0000) by (bit_vector)
            requires
                0 <= unsigned < 0x1_0000_0000_0000,
        ;
        assert(0x8000_0000_0000 <= unsigned < 0x1_0000_0000_0000 ==> unsigned | (0xFFFFi64 << 48)
            == unsigned - 0x1_0000_0000_0000) by (bit_vector);
        if this & (1 << 47) != 0 {
            this |= 0xFFFFi64 << 48;
        }
        Self(this)
    }
}

} // verus!
