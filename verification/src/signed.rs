//! The codecs of the signed integers of one, two, four, eight and sixteen
//! bytes: big-endian two's complement.
//!
//! A signed integer goes over the wire as the unsigned integer with the same
//! bits, so these codecs cast and leave the bytes to the unsigned codecs. What
//! is proved here is that the cast is two's complement.
use crate::big_endian::{
    be_bytes, be_signed_value, lemma_be_bytes_len, lemma_be_bytes_negative,
    lemma_be_signed_value_of_bytes, lemma_be_value_bound, lemma_radix_values,
};
use crate::Pack;
use vstd::prelude::*;

verus! {

impl Pack for i8 {
    const SIZE: usize = 1;

    open spec fn width() -> nat {
        1
    }

    open spec fn encoding(&self) -> Seq<u8> {
        be_bytes(*self as int, 1)
    }

    open spec fn decoding(bytes: Seq<u8>) -> Self {
        be_signed_value(bytes) as i8
    }

    open spec fn representable(&self) -> bool {
        true
    }

    proof fn lemma_size() {
        assert(Self::SIZE == 1);
    }

    proof fn lemma_encoding_len(&self) {
        lemma_be_bytes_len(*self as int, 1);
    }

    proof fn lemma_round_trip(&self) {
        lemma_radix_values();
        lemma_be_signed_value_of_bytes(*self as int, 1);
    }

    proof fn lemma_decoding_representable(bytes: Seq<u8>) {
    }

    fn pack(&self, buf: &mut [u8]) {
        let v: i8 = *self;
        proof {
            assert(v as u8 == if v < 0 {
                v + 0x100
            } else {
                v as int
            }) by (bit_vector);
            lemma_radix_values();
            if v < 0 {
                lemma_be_bytes_negative(v as int, 1);
            }
        }
        (v as u8).pack(buf);
    }

    fn unpack(buf: &[u8]) -> Self {
        let u: u8 = u8::unpack(buf);
        proof {
            assert(u as i8 == if u >= 0x80 {
                u - 0x100
            } else {
                u as int
            }) by (bit_vector);
            lemma_radix_values();
            lemma_be_value_bound(buf@.take(1));
        }
        u as i8
    }
}

impl Pack for i16 {
    const SIZE: usize = 2;

    open spec fn width() -> nat {
        2
    }

    open spec fn encoding(&self) -> Seq<u8> {
        be_bytes(*self as int, 2)
    }

    open spec fn decoding(bytes: Seq<u8>) -> Self {
        be_signed_value(bytes) as i16
    }

    open spec fn representable(&self) -> bool {
        true
    }

    proof fn lemma_size() {
        assert(Self::SIZE == 2);
    }

    proof fn lemma_encoding_len(&self) {
        lemma_be_bytes_len(*self as int, 2);
    }

    proof fn lemma_round_trip(&self) {
        lemma_radix_values();
        lemma_be_signed_value_of_bytes(*self as int, 2);
    }

    proof fn lemma_decoding_representable(bytes: Seq<u8>) {
    }

    fn pack(&self, buf: &mut [u8]) {
        let v: i16 = *self;
        proof {
            assert(v as u16 == if v < 0 {
                v + 0x1_0000
            } else {
                v as int
            }) by (bit_vector);
            lemma_radix_values();
            if v < 0 {
                lemma_be_bytes_negative(v as int, 2);
            }
        }
        (v as u16).pack(buf);
    }

    fn unpack(buf: &[u8]) -> Self {
        let u: u16 = u16::unpack(buf);
        proof {
            assert(u as i16 == if u >= 0x8000 {
                u - 0x1_0000
            } else {
                u as int
            }) by (bit_vector);
            lemma_radix_values();
            lemma_be_value_bound(buf@.take(2));
        }
        u as i16
    }
}

impl Pack for i32 {
    const SIZE: usize = 4;

    open spec fn width() -> nat {
        4
    }

    open spec fn encoding(&self) -> Seq<u8> {
        be_bytes(*self as int, 4)
    }

    open spec fn decoding(bytes: Seq<u8>) -> Self {
        be_signed_value(bytes) as i32
    }

    open spec fn representable(&self) -> bool {
        true
    }

    proof fn lemma_size() {
        assert(Self::SIZE == 4);
    }

    proof fn lemma_encoding_len(&self) {
        lemma_be_bytes_len(*self as int, 4);
    }

    proof fn lemma_round_trip(&self) {
        lemma_radix_values();
        lemma_be_signed_value_of_bytes(*self as int, 4);
    }

    proof fn lemma_decoding_representable(bytes: Seq<u8>) {
    }

    fn pack(&self, buf: &mut [u8]) {
        let v: i32 = *self;
        proof {
            assert(v as u32 == if v < 0 {
                v + 0x1_0000_0000
            } else {
                v as int
            }) by (bit_vector);
            lemma_radix_values();
            if v < 0 {
                lemma_be_bytes_negative(v as int, 4);
            }
        }
        (v as u32).pack(buf);
    }

    fn unpack(buf: &[u8]) -> Self {
        let u: u32 = u32::unpack(buf);
        proof {
            assert(u as i32 == if u >= 0x8000_0000 {
                u - 0x1_0000_0000
            } else {
                u as int
            }) by (bit_vector);
            lemma_radix_values();
            lemma_be_value_bound(buf@.take(4));
        }
        u as i32
    }
}

impl Pack for i64 {
    const SIZE: usize = 8;

    open spec fn width() -> nat {
        8
    }

    open spec fn encoding(&self) -> Seq<u8> {
        be_bytes(*self as int, 8)
    }

    open spec fn decoding(bytes: Seq<u8>) -> Self {
        be_signed_value(bytes) as i64
    }

    open spec fn representable(&self) -> bool {
        true
    }

    proof fn lemma_size() {
        assert(Self::SIZE == 8);
    }

    proof fn lemma_encoding_len(&self) {
        lemma_be_bytes_len(*self as int, 8);
    }

    proof fn lemma_round_trip(&self) {
        lemma_radix_values();
        lemma_be_signed_value_of_bytes(*self as int, 8);
    }

    proof fn lemma_decoding_representable(bytes: Seq<u8>) {
    }

    fn pack(&self, buf: &mut [u8]) {
        let v: i64 = *self;
        proof {
            assert(v as u64 == if v < 0 {
                v + 0x1_0000_0000_0000_0000
            } else {
                v as int
            }) by (bit_vector);
            lemma_radix_values();
            if v < 0 {
                lemma_be_bytes_negative(v as int, 8);
            }
        }
        (v as u64).pack(buf);
    }

    fn unpack(buf: &[u8]) -> Self {
        let u: u64 = u64::unpack(buf);
        proof {
            assert(u as i64 == if u >= 0x8000_0000_0000_0000 {
                u - 0x1_0000_0000_0000_0000
            } else {
                u as int
            }) by (bit_vector);
            lemma_radix_values();
            lemma_be_value_bound(buf@.take(8));
        }
        u as i64
    }
}

impl Pack for i128 {
    const SIZE: usize = 16;

    open spec fn width() -> nat {
        16
    }

    open spec fn encoding(&self) -> Seq<u8> {
        be_bytes(*self as int, 16)
    }

    open spec fn decoding(bytes: Seq<u8>) -> Self {
        be_signed_value(bytes) as i128
    }

    open spec fn representable(&self) -> bool {
        true
    }

    proof fn lemma_size() {
        assert(Self::SIZE == 16);
    }

    proof fn lemma_encoding_len(&self) {
        lemma_be_bytes_len(*self as int, 16);
    }

    proof fn lemma_round_trip(&self) {
        lemma_radix_values();
        lemma_be_signed_value_of_bytes(*self as int, 16);
    }

    proof fn lemma_decoding_representable(bytes: Seq<u8>) {
    }

    fn pack(&self, buf: &mut [u8]) {
        let v: i128 = *self;
        proof {
            assert(v as u128 == if v < 0 {
                v + 0x1_0000_0000_0000_0000_0000_0000_0000_0000
            } else {
                v as int
            }) by (bit_vector);
            lemma_radix_values();
            if v < 0 {
                lemma_be_bytes_negative(v as int, 16);
            }
        }
        (v as u128).pack(buf);
    }

    fn unpack(buf: &[u8]) -> Self {
        let u: u128 = u128::unpack(buf);
        proof {
            assert(u as i128 == if u >= 0x8000_0000_0000_0000_0000_0000_0000_0000 {
                u - 0x1_0000_0000_0000_0000_0000_0000_0000_0000
            } else {
                u as int
            }) by (bit_vector);
            lemma_radix_values();
            lemma_be_value_bound(buf@.take(16));
        }
        u as i128
    }
}

} // verus!
