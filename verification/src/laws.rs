//! What holds of the codecs taken together, stated over the wire format that
//! their contracts speak of.
use crate::big_endian::{
    be_signed_value, lemma_be_bytes_of_signed_value, lemma_be_bytes_of_value,
    lemma_be_value_bound, lemma_radix_values,
};
use crate::special::I48;
use crate::Pack;
use vstd::prelude::*;

verus! {

/// Every integer, whatever its width and its signedness, comes back from
/// decoding as it went into encoding.
pub proof fn lemma_integers_round_trip()
    ensures
        forall|v: u8| u8::decoding(#[trigger] v.encoding()) == v,
        forall|v: u16| u16::decoding(#[trigger] v.encoding()) == v,
        forall|v: u32| u32::decoding(#[trigger] v.encoding()) == v,
        forall|v: u64| u64::decoding(#[trigger] v.encoding()) == v,
        forall|v: u128| u128::decoding(#[trigger] v.encoding()) == v,
        forall|v: i8| i8::decoding(#[trigger] v.encoding()) == v,
        forall|v: i16| i16::decoding(#[trigger] v.encoding()) == v,
        forall|v: i32| i32::decoding(#[trigger] v.encoding()) == v,
        forall|v: i64| i64::decoding(#[trigger] v.encoding()) == v,
        forall|v: i128| i128::decoding(#[trigger] v.encoding()) == v,
{
    assert forall|v: u8| u8::decoding(#[trigger] v.encoding()) == v by {
        v.lemma_round_trip();
    }
    assert forall|v: u16| u16::decoding(#[trigger] v.encoding()) == v by {
        v.lemma_round_trip();
    }
    assert forall|v: u32| u32::decoding(#[trigger] v.encoding()) == v by {
        v.lemma_round_trip();
    }
    assert forall|v: u64| u64::decoding(#[trigger] v.encoding()) == v by {
        v.lemma_round_trip();
    }
    assert forall|v: u128| u128::decoding(#[trigger] v.encoding()) == v by {
        v.lemma_round_trip();
    }
    assert forall|v: i8| i8::decoding(#[trigger] v.encoding()) == v by {
        v.lemma_round_trip();
    }
    assert forall|v: i16| i16::decoding(#[trigger] v.encoding()) == v by {
        v.lemma_round_trip();
    }
    assert forall|v: i32| i32::decoding(#[trigger] v.encoding()) == v by {
        v.lemma_round_trip();
    }
    assert forall|v: i64| i64::decoding(#[trigger] v.encoding()) == v by {
        v.lemma_round_trip();
    }
    assert forall|v: i128| i128::decoding(#[trigger] v.encoding()) == v by {
        v.lemma_round_trip();
    }
}

/// No sequence of bytes is an invalid integer: every sequence of as many bytes
/// as an integer kind is wide is the encoding of the integer that it decodes
/// to.
pub proof fn lemma_integers_decode_every_byte_pattern(bytes: Seq<u8>)
    ensures
        bytes.len() == 1 ==> u8::decoding(bytes).encoding() == bytes,
        bytes.len() == 2 ==> u16::decoding(bytes).encoding() == bytes,
        bytes.len() == 4 ==> u32::decoding(bytes).encoding() == bytes,
        bytes.len() == 8 ==> u64::decoding(bytes).encoding() == bytes,
        bytes.len() == 16 ==> u128::decoding(bytes).encoding() == bytes,
        bytes.len() == 1 ==> i8::decoding(bytes).encoding() == bytes,
        bytes.len() == 2 ==> i16::decoding(bytes).encoding() == bytes,
        bytes.len() == 4 ==> i32::decoding(bytes).encoding() == bytes,
        bytes.len() == 8 ==> i64::decoding(bytes).encoding() == bytes,
        bytes.len() == 16 ==> i128::decoding(bytes).encoding() == bytes,
        bytes.len() == 6 ==> I48::decoding(bytes).encoding() == bytes,
{
    lemma_radix_values();
    lemma_be_value_bound(bytes);
    lemma_be_bytes_of_value(bytes);
    lemma_be_bytes_of_signed_value(bytes);
    I48::lemma_spec_new(be_signed_value(bytes) as i64);
}

/// A boolean comes back from decoding as it went into encoding, though
/// decoding takes more bytes than encoding gives: every byte but zero reads
/// as `true`.
pub proof fn lemma_bool_round_trip(v: bool, byte: u8)
    ensures
        bool::decoding(v.encoding()) == v,
        bool::decoding(seq![byte]) == (byte != 0),
{
}

/// A 48-bit integer from `-2^47` up to, but not including, `2^47` comes back
/// from decoding as it went into encoding.
pub proof fn lemma_i48_round_trip(v: i64)
    requires
        -0x8000_0000_0000 <= v < 0x8000_0000_0000,
    ensures
        I48::decoding(I48::spec_new(v).encoding())@ == v,
{
    I48::lemma_spec_new(v);
    I48::spec_new(v).lemma_round_trip();
}

/// A pair is as wide as its two members together, whatever their values, and
/// its encoding is theirs, one after the other.
pub proof fn lemma_pair_width<A: Pack, B: Pack>(a: A, b: B)
    ensures
        <(A, B)>::width() == A::width() + B::width(),
        (a, b).encoding() == a.encoding() + b.encoding(),
        (a, b).encoding().len() == A::width() + B::width(),
{
    (a, b).lemma_encoding_len();
}

/// A pair comes back from decoding as it went into encoding if its members
/// do.
pub proof fn lemma_pair_round_trip<A: Pack, B: Pack>(a: A, b: B)
    requires
        a.representable(),
        b.representable(),
    ensures
        <(A, B)>::decoding((a, b).encoding()) == (a, b),
{
    (a, b).lemma_round_trip();
}

/// The representable values of a kind are exactly those that come back from
/// decoding as they went into encoding.
pub proof fn lemma_round_trip_iff_representable<T: Pack>(value: T)
    ensures
        T::decoding(value.encoding()) == value <==> value.representable(),
{
    value.lemma_encoding_len();
    T::lemma_decoding_representable(value.encoding());
    if value.representable() {
        value.lemma_round_trip();
    }
}

/// Unpacking reads back what packing wrote. `buf` is a buffer of at least
/// `width` bytes; packing `value` leaves the encoding of `value` in front of
/// the rest of `buf`, and unpacking decodes the first `width` bytes of that.
pub proof fn lemma_unpack_after_pack<T: Pack>(value: T, buf: Seq<u8>)
    requires
        value.representable(),
        buf.len() >= T::width(),
    ensures
        T::decoding((value.encoding() + buf.skip(T::width() as int)).take(T::width() as int))
            == value,
{
    value.lemma_encoding_len();
    value.lemma_round_trip();
    assert((value.encoding() + buf.skip(T::width() as int)).take(T::width() as int)
        =~= value.encoding());
}

} // verus!
