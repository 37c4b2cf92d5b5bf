//! The mathematics of the wire format: numbers written in base 256 with the
//! most significant digit first, and two's complement for the signed ones.
//!
//! Everything here is ghost code. The codecs state their contracts over
//! [`be_bytes`], [`be_value`] and [`be_signed_value`], and the lemmas below are
//! what their proofs, and the proofs of their callers, rest on.
use vstd::arithmetic::div_mod::{
    lemma_fundamental_div_mod, lemma_fundamental_div_mod_converse, lemma_mod_bound,
};
use vstd::prelude::*;

verus! {

/// `256^n`: how many values `n` bytes can tell apart.
pub open spec fn radix(n: nat) -> nat
    decreases n,
{
    if n == 0 {
        1
    } else {
        256 * radix((n - 1) as nat)
    }
}

/// The `n` low base-256 digits of `v`, most significant first.
///
/// Division and remainder are Euclidean, so for a negative `v` these are the
/// digits of its two's complement: `be_bytes(-1, 2)` is `[0xFF, 0xFF]`. Digits
/// of `v` above the `n`-th are dropped.
pub open spec fn be_bytes(v: int, n: nat) -> Seq<u8>
    decreases n,
{
    if n == 0 {
        Seq::empty()
    } else {
        be_bytes(v / 256, (n - 1) as nat).push((v % 256) as u8)
    }
}

/// The number that `bytes` spell in base 256, most significant digit first.
pub open spec fn be_value(bytes: Seq<u8>) -> nat
    decreases bytes.len(),
{
    if bytes.len() == 0 {
        0
    } else {
        256 * be_value(bytes.drop_last()) + bytes.last() as nat
    }
}

/// The number that `bytes` spell in big-endian two's complement: the upper
/// half of the unsigned range stands for the negative numbers.
pub open spec fn be_signed_value(bytes: Seq<u8>) -> int {
    let unsigned: nat = be_value(bytes);
    if 2 * unsigned >= radix(bytes.len()) {
        unsigned - radix(bytes.len())
    } else {
        unsigned as int
    }
}

/// Whether `v` can be written in `n` bytes of two's complement.
pub open spec fn fits_signed(v: int, n: nat) -> bool {
    -(radix(n) as int) <= 2 * v < radix(n)
}

/// The radix is never zero.
pub proof fn lemma_radix_positive(n: nat)
    ensures
        radix(n) > 0,
    decreases n,
{
    if n > 0 {
        lemma_radix_positive((n - 1) as nat);
    }
}

/// A longer sequence has the larger radix.
pub proof fn lemma_radix_monotonic(m: nat, n: nat)
    requires
        m <= n,
    ensures
        radix(m) <= radix(n),
    decreases n,
{
    if m < n {
        lemma_radix_monotonic(m, (n - 1) as nat);
    }
}

/// The radix of every width that the scalar codecs use.
pub proof fn lemma_radix_values()
    ensures
        radix(0) == 1,
        radix(1) == 0x100,
        radix(2) == 0x1_0000,
        radix(4) == 0x1_0000_0000,
        radix(6) == 0x1_0000_0000_0000,
        radix(8) == 0x1_0000_0000_0000_0000,
        radix(16) == 0x1_0000_0000_0000_0000_0000_0000_0000_0000,
{
    reveal_with_fuel(radix, 17);
}

/// Reducing modulo `256 * r` keeps the low byte and reduces the rest modulo `r`.
proof fn lemma_mod_low_byte(v: int, r: int)
    requires
        r > 0,
    ensures
        v % (256 * r) == 256 * ((v / 256) % r) + v % 256,
{
    let q: int = v / 256;
    let lo: int = v % 256;
    let q2: int = q / r;
    let hi: int = q % r;
    lemma_fundamental_div_mod(q, r);
    lemma_mod_bound(q, r);
    assert(v == q2 * (256 * r) + (256 * hi + lo)) by (nonlinear_arith)
        requires
            v == 256 * q + lo,
            q == r * q2 + hi,
    ;
    lemma_fundamental_div_mod_converse(v, 256 * r, q2, 256 * hi + lo);
}

/// An encoding has as many bytes as were asked for.
pub proof fn lemma_be_bytes_len(v: int, n: nat)
    ensures
        be_bytes(v, n).len() == n,
    decreases n,
{
    if n > 0 {
        lemma_be_bytes_len(v / 256, (n - 1) as nat);
    }
}

/// What a byte sequence spells is below the radix of its length.
pub proof fn lemma_be_value_bound(bytes: Seq<u8>)
    ensures
        be_value(bytes) < radix(bytes.len()),
    decreases bytes.len(),
{
    if bytes.len() > 0 {
        lemma_be_value_bound(bytes.drop_last());
    }
}

/// Reading one byte more multiplies what was read by 256 and adds the byte.
pub proof fn lemma_be_value_next(bytes: Seq<u8>, i: int)
    requires
        0 <= i < bytes.len(),
    ensures
        be_value(bytes.take(i + 1)) == 256 * be_value(bytes.take(i)) + bytes[i],
{
    assert(bytes.take(i + 1).drop_last() =~= bytes.take(i));
}

/// The digits of `v` are those of `v / 256`, then the low byte of `v`: with
/// `tail` behind them, the low byte may as well stand at the head of `tail`.
pub proof fn lemma_be_bytes_next(v: int, n: nat, tail: Seq<u8>)
    requires
        n > 0,
    ensures
        be_bytes(v, n) + tail == be_bytes(v / 256, (n - 1) as nat) + (seq![(v % 256) as u8] + tail),
{
    let front: Seq<u8> = be_bytes(v / 256, (n - 1) as nat);
    let low: u8 = (v % 256) as u8;
    assert(front.push(low) + tail =~= front + (seq![low] + tail));
}

/// Reading back `n` digits of `v` gives `v` modulo the radix.
pub proof fn lemma_be_value_of_bytes(v: int, n: nat)
    ensures
        be_value(be_bytes(v, n)) == v % (radix(n) as int),
    decreases n,
{
    if n > 0 {
        let rest: Seq<u8> = be_bytes(v / 256, (n - 1) as nat);
        let low: u8 = (v % 256) as u8;
        lemma_be_value_of_bytes(v / 256, (n - 1) as nat);
        lemma_radix_positive((n - 1) as nat);
        lemma_mod_low_byte(v, radix((n - 1) as nat) as int);
        assert(rest.push(low).drop_last() =~= rest);
    }
}

/// Writing out what a byte sequence spells gives the sequence back.
pub proof fn lemma_be_bytes_of_value(bytes: Seq<u8>)
    ensures
        be_bytes(be_value(bytes) as int, bytes.len()) == bytes,
    decreases bytes.len(),
{
    if bytes.len() > 0 {
        let front: Seq<u8> = bytes.drop_last();
        lemma_be_bytes_of_value(front);
        assert(front.push(bytes.last()) =~= bytes);
    }
}

/// Numbers that agree modulo the radix have the same digits.
pub proof fn lemma_be_bytes_congruent(a: int, b: int, n: nat)
    requires
        a % (radix(n) as int) == b % (radix(n) as int),
    ensures
        be_bytes(a, n) == be_bytes(b, n),
    decreases n,
{
    if n > 0 {
        let r: int = radix((n - 1) as nat) as int;
        lemma_radix_positive((n - 1) as nat);
        lemma_mod_low_byte(a, r);
        lemma_mod_low_byte(b, r);
        lemma_mod_bound(a / 256, r);
        lemma_mod_bound(b / 256, r);
        lemma_be_bytes_congruent(a / 256, b / 256, (n - 1) as nat);
    }
}

/// A number below the radix is its own remainder.
pub proof fn lemma_mod_radix_small(v: int, n: nat)
    requires
        0 <= v < radix(n),
    ensures
        v % (radix(n) as int) == v,
{
    lemma_fundamental_div_mod_converse(v, radix(n) as int, 0, v);
}

/// Two's complement: a negative number above minus the radix is spelt as
/// itself plus the radix.
pub proof fn lemma_mod_radix_negative(v: int, n: nat)
    requires
        -(radix(n) as int) <= v < 0,
    ensures
        v % (radix(n) as int) == v + radix(n),
{
    lemma_fundamental_div_mod_converse(v, radix(n) as int, -1, v + radix(n));
}

/// Two's complement: a negative number has the digits of itself plus the
/// radix.
pub proof fn lemma_be_bytes_negative(v: int, n: nat)
    requires
        -(radix(n) as int) <= v < 0,
    ensures
        be_bytes(v, n) == be_bytes(v + radix(n), n),
{
    lemma_mod_radix_negative(v, n);
    lemma_mod_radix_small(v + radix(n), n);
    lemma_be_bytes_congruent(v, v + radix(n), n);
}

/// Writing out in two's complement what a byte sequence spells as a signed
/// number gives the sequence back.
pub proof fn lemma_be_bytes_of_signed_value(bytes: Seq<u8>)
    ensures
        be_bytes(be_signed_value(bytes), bytes.len()) == bytes,
{
    lemma_be_bytes_of_value(bytes);
    lemma_be_value_bound(bytes);
    if 2 * be_value(bytes) >= radix(bytes.len()) {
        lemma_be_bytes_negative(be_value(bytes) - radix(bytes.len()), bytes.len());
    }
}

/// The signed reading of `n` bytes can be written in `n` bytes.
pub proof fn lemma_be_signed_value_fits(bytes: Seq<u8>)
    ensures
        fits_signed(be_signed_value(bytes), bytes.len()),
{
    lemma_be_value_bound(bytes);
}

/// A signed number that fits in `n` bytes is what its `n` digits spell in
/// two's complement.
pub proof fn lemma_be_signed_value_of_bytes(v: int, n: nat)
    requires
        fits_signed(v, n),
    ensures
        be_signed_value(be_bytes(v, n)) == v,
{
    lemma_be_bytes_len(v, n);
    lemma_be_value_of_bytes(v, n);
    if v >= 0 {
        lemma_mod_radix_small(v, n);
    } else {
        lemma_mod_radix_negative(v, n);
    }
}

} // verus!
