//! Encoding of plaintexts in [0, P) into the most significant bits of a torus value.
use crate::arith::{lemma_wrap_shift, wrap};
use vstd::prelude::*;

verus! {

/// The torus value that carries `msg`: its four low bits in the four top bits.
pub open spec fn encode_spec(msg: u8) -> u64 {
    (msg as u64) << 60u64
}

/// Rounds `mu` to the nearest multiple of 2^60 and reads the plaintext there.
pub open spec fn decode_spec(mu: u64) -> u8 {
    ((((mu >> 59u64) + 1) / 2) % 16) as u8
}

/// Rounds a value modulo 2N to the nearest multiple of 2N/16 and reads the plaintext there.
pub open spec fn decode_modswitched_spec(mu: u64) -> u8 {
    ((((mu >> 6u64) + 1) / 2) % 16) as u8
}

/// Reads a plaintext in [0, 8) from the output of a bootstrap: values in the upper half
/// of the torus are complemented first.
pub open spec fn decode_bootstrapped_spec(mu: u64) -> u8 {
    if (mu >> 63u64) == 1 {
        (decode_spec(!mu) % 8) as u8
    } else {
        (decode_spec(mu) % 8) as u8
    }
}

pub fn encode(msg: u8) -> (r: u64)
    ensures
        r == encode_spec(msg),
        r as int == (msg % 16) as int * 0x1000_0000_0000_0000,
{
    let m = msg as u64;
    assert(m << 60u64 == (m % 16) * 0x1000_0000_0000_0000) by (bit_vector);
    m << 60
}

pub fn decode(mu: u64) -> (r: u8)
    ensures
        r == decode_spec(mu),
        r < 16,
{
    assert((mu >> 59u64) + 1 <= 32) by (bit_vector);
    let t = (mu >> 59) + 1;
    assert(t >> 1u64 == t / 2) by (bit_vector);
    ((t >> 1) % 16) as u8
}

pub fn decode_modswitched(mu: u64) -> (r: u8)
    ensures
        r == decode_modswitched_spec(mu),
        r < 16,
{
    assert((mu >> 6u64) < 0x0400_0000_0000_0000) by (bit_vector);
    let t = (mu >> 6) + 1;
    assert(t >> 1u64 == t / 2) by (bit_vector);
    ((t >> 1) % 16) as u8
}

pub fn decode_bootstrapped(mu: u64) -> (r: u8)
    ensures
        r == decode_bootstrapped_spec(mu),
        r < 8,
{
    if (mu >> 63) == 1 {
        decode(!mu) % 8
    } else {
        decode(mu) % 8
    }
}

/// A torus value less than 2^59 away from the encoding of `pt` decodes to `pt`.
pub proof fn lemma_decode_window(pt: u8, e: int)
    requires
        pt < 16,
        -0x0800_0000_0000_0000 <= e < 0x0800_0000_0000_0000,
    ensures
        decode_spec(wrap(encode_spec(pt) + e)) == pt,
{
    let p = pt as u64;
    assert(p << 60u64 == p * 0x1000_0000_0000_0000) by (bit_vector)
        requires
            p < 16,
    ;
    let v = pt * 0x1000_0000_0000_0000 + e;
    let x = wrap(v);
    assert(x >> 59u64 == x / 0x0800_0000_0000_0000) by (bit_vector);
    if v >= 0 {
        assert(x == v);
        if e >= 0 {
            vstd::arithmetic::div_mod::lemma_fundamental_div_mod_converse(
                x as int,
                0x0800_0000_0000_0000,
                2 * pt,
                e,
            );
        } else {
            vstd::arithmetic::div_mod::lemma_fundamental_div_mod_converse(
                x as int,
                0x0800_0000_0000_0000,
                2 * pt - 1,
                e + 0x0800_0000_0000_0000,
            );
        }
    } else {
        lemma_wrap_shift(v, 1);
        assert(x == v + 0x1_0000_0000_0000_0000);
        vstd::arithmetic::div_mod::lemma_fundamental_div_mod_converse(
            x as int,
            0x0800_0000_0000_0000,
            31,
            e + 0x0800_0000_0000_0000,
        );
    }
}

/// The sum of the encodings of `a` and `b` is the encoding of their sum modulo 16.
pub proof fn lemma_encode_add(a: u8, b: u8, e: int)
    requires
        a < 16,
        b < 16,
    ensures
        wrap(encode_spec(a) + encode_spec(b) + e) == wrap(encode_spec(((a + b) % 16) as u8) + e),
{
    lemma_encode_value(a);
    lemma_encode_value(b);
    lemma_encode_value(((a + b) % 16) as u8);
    let s = ((a + b) % 16) * 0x1000_0000_0000_0000 + e;
    let q = (a + b) / 16;
    assert(a * 0x1000_0000_0000_0000 + b * 0x1000_0000_0000_0000 + e == s + q
        * 0x1_0000_0000_0000_0000);
    lemma_wrap_shift(s, q);
}

/// The difference of the encodings of `a` and `b` is the encoding of their difference modulo 16.
pub proof fn lemma_encode_sub(a: u8, b: u8, e: int)
    requires
        a < 16,
        b < 16,
    ensures
        wrap(encode_spec(a) - encode_spec(b) + e) == wrap(encode_spec(((a - b) % 16) as u8) + e),
{
    lemma_encode_value(a);
    lemma_encode_value(b);
    lemma_encode_value(((a - b) % 16) as u8);
    let s = ((a - b) % 16) * 0x1000_0000_0000_0000 + e;
    let q = if a >= b { 0int } else { -1int };
    assert(a * 0x1000_0000_0000_0000 - b * 0x1000_0000_0000_0000 + e == s + q
        * 0x1_0000_0000_0000_0000);
    lemma_wrap_shift(s, q);
}

proof fn lemma_encode_value(pt: u8)
    requires
        pt < 16,
    ensures
        encode_spec(pt) == pt * 0x1000_0000_0000_0000,
{
    let p = pt as u64;
    assert(p << 60u64 == p * 0x1000_0000_0000_0000) by (bit_vector)
        requires
            p < 16,
    ;
}

} // verus!
