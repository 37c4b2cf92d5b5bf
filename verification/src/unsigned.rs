//! The codecs of the unsigned integers of one, two, four, eight and sixteen
//! bytes: base 256, most significant byte first.
//!
//! Packing peels the low byte off the value and stores it from the back of the
//! field to the front; unpacking shifts the bytes in from the front. The loop
//! invariants say which digits have been written or read so far.
use crate::big_endian::{
    be_bytes, be_value, lemma_be_bytes_len, lemma_be_bytes_next, lemma_be_value_bound,
    lemma_be_value_next, lemma_be_value_of_bytes, lemma_mod_radix_small, lemma_radix_monotonic,
    lemma_radix_values,
};
use crate::Pack;
use vstd::prelude::*;

verus! {

impl Pack for u8 {
    const SIZE: usize = 1;

    open spec fn width() -> nat {
        1
    }

    open spec fn encoding(&self) -> Seq<u8> {
        be_bytes(*self as int, 1)
    }

    open spec fn decoding(bytes: Seq<u8>) -> Self {
        be_value(bytes) as u8
    }

    open spec fn representable(&self) -> bool {
        true
    }

    proof fn lemma_size() {
        assert(Self::SIZE == 1);
    }

    proof fn lemma_encoding_len(&self) {
        lemma_be_bytes_len(*self as int, 1);
    }

    proof fn lemma_round_trip(&self) {
        lemma_radix_values();
        lemma_be_value_of_bytes(*self as int, 1);
        lemma_mod_radix_small(*self as int, 1);
    }

    proof fn lemma_decoding_representable(bytes: Seq<u8>) {
    }

    fn pack(&self, buf: &mut [u8]) {
        buf[0] = *self;
        proof {
            reveal_with_fuel(be_bytes, 2);
            assert(buf@ =~= be_bytes(*self as int, 1) + old(buf)@.skip(1));
        }
    }

    fn unpack(buf: &[u8]) -> Self {
        proof {
            assert(Self::width() == 1);
            lemma_be_value_next(buf@, 0);
            assert(Self::decoding(buf@.take(1)) == be_value(buf@.take(1)) as u8);
        }
        buf[0]
    }
}

impl Pack for u16 {
    const SIZE: usize = 2;

    open spec fn width() -> nat {
        2
    }

    open spec fn encoding(&self) -> Seq<u8> {
        be_bytes(*self as int, 2)
    }

    open spec fn decoding(bytes: Seq<u8>) -> Self {
        be_value(bytes) as u16
    }

    open spec fn representable(&self) -> bool {
        true
    }

    proof fn lemma_size() {
        assert(Self::SIZE == 2);
    }

    proof fn lemma_encoding_len(&self) {
        lemma_be_bytes_len(*self as int, 2);
    }

    proof fn lemma_round_trip(&self) {
        lemma_radix_values();
        lemma_be_value_of_bytes(*self as int, 2);
        lemma_mod_radix_small(*self as int, 2);
    }

    proof fn lemma_decoding_representable(bytes: Seq<u8>) {
    }

    fn pack(&self, buf: &mut [u8]) {
        let mut this: u16 = *self;
        let mut i: usize = 1;
        while i <= Self::SIZE
            invariant
                1 <= i <= 3,
                buf@.len() == old(buf)@.len(),
                buf@.len() >= 2,
                buf@.skip(2) == old(buf)@.skip(2),
                be_bytes(*self as int, 2) == be_bytes(this as int, (3 - i) as nat)
                    + buf@.subrange(3 - i, 2),
            decreases 3 - i,
        {
            let ghost before: Seq<u8> = buf@;
            assert((this & 0xFF) as u8 == this % 256 && this >> 8 == this / 256) by (bit_vector);
            buf[Self::SIZE - i] = (this & 0xFF) as u8;
            proof {
                lemma_be_bytes_next(this as int, (3 - i) as nat, before.subrange(3 - i, 2));
                assert(buf@.subrange(2 - i, 2) =~= seq![(this % 256) as u8] + before.subrange(
                    3 - i,
                    2,
                ));
                assert(buf@.skip(2) =~= before.skip(2));
            }
            this = this >> 8;
            i += 1;
        }
        assert(buf@ =~= buf@.subrange(0, 2) + buf@.skip(2));
    }

    fn unpack(buf: &[u8]) -> Self {
        assert(Self::width() == 2);
        let mut this: u16 = 0;
        let mut i: usize = 0;
        while i < Self::SIZE
            invariant
                i <= 2,
                buf@.len() >= 2,
                this == be_value(buf@.take(i as int)),
            decreases 2 - i,
        {
            let b: u8 = buf[i];
            proof {
                lemma_be_value_next(buf@, i as int);
                lemma_be_value_bound(buf@.take(i + 1));
                lemma_radix_monotonic((i + 1) as nat, 2);
                lemma_radix_values();
            }
            assert((this << 8) | (b as u16) == 256 * this + b) by (bit_vector)
                requires
                    256 * this + b <= u16::MAX,
            ;
            this = this << 8;
            this |= b as u16;
            i += 1;
        }
        assert(Self::decoding(buf@.take(2)) == be_value(buf@.take(2)) as u16);
        this
    }
}

impl Pack for u32 {
    const SIZE: usize = 4;

    open spec fn width() -> nat {
        4
    }

    open spec fn encoding(&self) -> Seq<u8> {
        be_bytes(*self as int, 4)
    }

    open spec fn decoding(bytes: Seq<u8>) -> Self {
        be_value(bytes) as u32
    }

    open spec fn representable(&self) -> bool {
        true
    }

    proof fn lemma_size() {
        assert(Self::SIZE == 4);
    }

    proof fn lemma_encoding_len(&self) {
        lemma_be_bytes_len(*self as int, 4);
    }

    proof fn lemma_round_trip(&self) {
        lemma_radix_values();
        lemma_be_value_of_bytes(*self as int, 4);
        lemma_mod_radix_small(*self as int, 4);
    }

    proof fn lemma_decoding_representable(bytes: Seq<u8>) {
    }

    fn pack(&self, buf: &mut [u8]) {
        let mut this: u32 = *self;
        let mut i: usize = 1;
        while i <= Self::SIZE
            invariant
                1 <= i <= 5,
                buf@.len() == old(buf)@.len(),
                buf@.len() >= 4,
                buf@.skip(4) == old(buf)@.skip(4),
                be_bytes(*self as int, 4) == be_bytes(this as int, (5 - i) as nat)
                    + buf@.subrange(5 - i, 4),
            decreases 5 - i,
        {
            let ghost before: Seq<u8> = buf@;
            assert((this & 0xFF) as u8 == this % 256 && this >> 8 == this / 256) by (bit_vector);
            buf[Self::SIZE - i] = (this & 0xFF) as u8;
            proof {
                lemma_be_bytes_next(this as int, (5 - i) as nat, before.subrange(5 - i, 4));
                assert(buf@.subrange(4 - i, 4) =~= seq![(this % 256) as u8] + before.subrange(
                    5 - i,
                    4,
                ));
                assert(buf@.skip(4) =~= before.skip(4));
            }
            this = this >> 8;
            i += 1;
        }
        assert(buf@ =~= buf@.subrange(0, 4) + buf@.skip(4));
    }

    fn unpack(buf: &[u8]) -> Self {
        assert(Self::width() == 4);
        let mut this: u32 = 0;
        let mut i: usize = 0;
        while i < Self::SIZE
            invariant
                i <= 4,
                buf@.len() >= 4,
                this == be_value(buf@.take(i as int)),
            decreases 4 - i,
        {
            let b: u8 = buf[i];
            proof {
                lemma_be_value_next(buf@, i as int);
                lemma_be_value_bound(buf@.take(i + 1));
                lemma_radix_monotonic((i + 1) as nat, 4);
                lemma_radix_values();
            }
            assert((this << 8) | (b as u32) == 256 * this + b) by (bit_vector)
                requires
                    256 * this + b <= u32::MAX,
            ;
            this = this << 8;
            this |= b as u32;
            i += 1;
        }
        assert(Self::decoding(buf@.take(4)) == be_value(buf@.take(4)) as u32);
        this
    }
}

impl Pack for u64 {
    const SIZE: usize = 8;

    open spec fn width() -> nat {
        8
    }

    open spec fn encoding(&self) -> Seq<u8> {
        be_bytes(*self as int, 8)
    }

    open spec fn decoding(bytes: Seq<u8>) -> Self {
        be_value(bytes) as u64
    }

    open spec fn representable(&self) -> bool {
        true
    }

    proof fn lemma_size() {
        assert(Self::SIZE == 8);
    }

    proof fn lemma_encoding_len(&self) {
        lemma_be_bytes_len(*self as int, 8);
    }

    proof fn lemma_round_trip(&self) {
        lemma_radix_values();
        lemma_be_value_of_bytes(*self as int, 8);
        lemma_mod_radix_small(*self as int, 8);
    }

    proof fn lemma_decoding_representable(bytes: Seq<u8>) {
    }

    fn pack(&self, buf: &mut [u8]) {
        let mut this: u64 = *self;
        let mut i: usize = 1;
        while i <= Self::SIZE
            invariant
                1 <= i <= 9,
                buf@.len() == old(buf)@.len(),
                buf@.len() >= 8,
                buf@.skip(8) == old(buf)@.skip(8),
                be_bytes(*self as int, 8) == be_bytes(this as int, (9 - i) as nat)
                    + buf@.subrange(9 - i, 8),
            decreases 9 - i,
        {
            let ghost before: Seq<u8> = buf@;
            assert((this & 0xFF) as u8 == this % 256 && this >> 8 == this / 256) by (bit_vector);
            buf[Self::SIZE - i] = (this & 0xFF) as u8;
            proof {
                lemma_be_bytes_next(this as int, (9 - i) as nat, before.subrange(9 - i, 8));
                assert(buf@.subrange(8 - i, 8) =~= seq![(this % 256) as u8] + before.subrange(
                    9 - i,
                    8,
                ));
                assert(buf@.skip(8) =~= before.skip(8));
            }
            this = this >> 8;
            i += 1;
        }
        assert(buf@ =~= buf@.subrange(0, 8) + buf@.skip(8));
    }

    fn unpack(buf: &[u8]) -> Self {
        assert(Self::width() == 8);
        let mut this: u64 = 0;
        let mut i: usize = 0;
        while i < Self::SIZE
            invariant
                i <= 8,
                buf@.len() >= 8,
                this == be_value(buf@.take(i as int)),
            decreases 8 - i,
        {
            let b: u8 = buf[i];
            proof {
                lemma_be_value_next(buf@, i as int);
                lemma_be_value_bound(buf@.take(i + 1));
                lemma_radix_monotonic((i + 1) as nat, 8);
                lemma_radix_values();
            }
            assert((this << 8) | (b as u64) == 256 * this + b) by (bit_vector)
                requires
                    256 * this + b <= u64::MAX,
            ;
            this = this << 8;
            this |= b as u64;
            i += 1;
        }
        assert(Self::decoding(buf@.take(8)) == be_value(buf@.take(8)) as u64);
        this
    }
}

impl Pack for u128 {
    const SIZE: usize = 16;

    open spec fn width() -> nat {
        16
    }

    open spec fn encoding(&self) -> Seq<u8> {
        be_bytes(*self as int, 16)
    }

    open spec fn decoding(bytes: Seq<u8>) -> Self {
        be_value(bytes) as u128
    }

    open spec fn representable(&self) -> bool {
        true
    }

    proof fn lemma_size() {
        assert(Self::SIZE == 16);
    }

    proof fn lemma_encoding_len(&self) {
        lemma_be_bytes_len(*self as int, 16);
    }

    proof fn lemma_round_trip(&self) {
        lemma_radix_values();
        lemma_be_value_of_bytes(*self as int, 16);
        lemma_mod_radix_small(*self as int, 16);
    }

    proof fn lemma_decoding_representable(bytes: Seq<u8>) {
    }

    fn pack(&self, buf: &mut [u8]) {
        let mut this: u128 = *self;
        let mut i: usize = 1;
        while i <= Self::SIZE
            invariant
                1 <= i <= 17,
                buf@.len() == old(buf)@.len(),
                buf@.len() >= 16,
                buf@.skip(16) == old(buf)@.skip(16),
                be_bytes(*self as int, 16) == be_bytes(this as int, (17 - i) as nat)
                    + buf@.subrange(17 - i, 16),
            decreases 17 - i,
        {
            let ghost before: Seq<u8> = buf@;
            assert((this & 0xFF) as u8 == this % 256 && this >> 8 == this / 256) by (bit_vector);
            buf[Self::SIZE - i] = (this & 0xFF) as u8;
            proof {
                lemma_be_bytes_next(this as int, (17 - i) as nat, before.subrange(17 - i, 16));
                assert(buf@.subrange(16 - i, 16) =~= seq![(this % 256) as u8] + before.subrange(
                    17 - i,
                    16,
                ));
                assert(buf@.skip(16) =~= before.skip(16));
            }
            this = this >> 8;
            i += 1;
        }
        assert(buf@ =~= buf@.subrange(0, 16) + buf@.skip(16));
    }

    fn unpack(buf: &[u8]) -> Self {
        assert(Self::width() == 16);
        let mut this: u128 = 0;
        let mut i: usize = 0;
        while i < Self::SIZE
            invariant
                i <= 16,
                buf@.len() >= 16,
                this == be_value(buf@.take(i as int)),
            decreases 16 - i,
        {
            let b: u8 = buf[i];
            proof {
                lemma_be_value_next(buf@, i as int);
                lemma_be_value_bound(buf@.take(i + 1));
                lemma_radix_monotonic((i + 1) as nat, 16);
                lemma_radix_values();
            }
            assert((this << 8) | (b as u128) == 256 * this + b) by (bit_vector)
                requires
                    256 * this + b <= u128::MAX,
            ;
            this = this << 8;
            this |= b as u128;
            i += 1;
        }
        assert(Self::decoding(buf@.take(16)) == be_value(buf@.take(16)) as u128);
        this
    }
}

} // verus!
