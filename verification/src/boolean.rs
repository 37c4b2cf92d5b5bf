//! The codec of booleans: one byte, zero for `false` and one for `true`.
use crate::Pack;
use vstd::prelude::*;

verus! {

impl Pack for bool {
    const SIZE: usize = 1;

    open spec fn width() -> nat {
        1
    }

    /// `true` is written as one and `false` as zero.
    open spec fn encoding(&self) -> Seq<u8> {
        seq![if *self { 1u8 } else { 0u8 }]
    }

    /// Every byte but zero reads as `true`.
    open spec fn decoding(bytes: Seq<u8>) -> Self {
        bytes[0] != 0
    }

    open spec fn representable(&self) -> bool {
        true
    }

    proof fn lemma_size() {
        assert(Self::SIZE == 1);
    }

    proof fn lemma_encoding_len(&self) {
    }

    proof fn lemma_round_trip(&self) {
    }

    proof fn lemma_decoding_representable(bytes: Seq<u8>) {
    }

    fn pack(&self, buf: &mut [u8]) {
        buf[0] = if *self {
            1
        } else {
            0
        };
        assert(buf@ =~= self.encoding() + old(buf)@.skip(1));
    }

    fn unpack(buf: &[u8]) -> Self {
        buf[0] != 0
    }
}

} // verus!
