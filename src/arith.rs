//! Arithmetic on the torus Z/2^64, seen through mathematical integers.
use vstd::prelude::*;
use vstd::arithmetic::div_mod::{lemma_add_mod_noop, lemma_sub_mod_noop, lemma_mul_mod_noop};

verus! {

/// The modulus 2^64 of every ciphertext value.
pub open spec fn modulus() -> int {
    0x1_0000_0000_0000_0000
}

/// The representative in [0, 2^64) of an integer modulo 2^64.
pub open spec fn wrap(x: int) -> u64 {
    (x % modulus()) as u64
}

/// `wrap` is the identity on values that already are residues.
pub proof fn lemma_wrap_id(x: u64)
    ensures
        wrap(x as int) == x,
{
}

pub proof fn lemma_wrapping_add(x: u64, y: u64)
    ensures
        x.wrapping_add(y) == wrap(x + y),
{
}

pub proof fn lemma_wrapping_sub(x: u64, y: u64)
    ensures
        x.wrapping_sub(y) == wrap(x - y),
{
}

pub proof fn lemma_wrapping_mul(x: u64, y: u64)
    ensures
        x.wrapping_mul(y) == wrap(x * y),
{
}

pub proof fn lemma_wrapping_add_signed(x: u64, y: i64)
    ensures
        x.wrapping_add_signed(y) == wrap(x + y),
{
}

/// Reducing an operand of a sum first does not change the residue.
pub proof fn lemma_wrap_add(x: int, y: int)
    ensures
        wrap(wrap(x) + y) == wrap(x + y),
        wrap(y + wrap(x)) == wrap(y + x),
{
    lemma_add_mod_noop(x, y, modulus());
    lemma_add_mod_noop(x % modulus(), y, modulus());
    lemma_add_mod_noop(y, x, modulus());
    lemma_add_mod_noop(y, x % modulus(), modulus());
}

/// Reducing an operand of a difference first does not change the residue.
pub proof fn lemma_wrap_sub(x: int, y: int)
    ensures
        wrap(wrap(x) - y) == wrap(x - y),
        wrap(y - wrap(x)) == wrap(y - x),
{
    lemma_sub_mod_noop(x, y, modulus());
    lemma_sub_mod_noop(x % modulus(), y, modulus());
    lemma_sub_mod_noop(y, x, modulus());
    lemma_sub_mod_noop(y, x % modulus(), modulus());
}

/// Reducing an operand of a product first does not change the residue.
pub proof fn lemma_wrap_mul(x: int, y: int)
    ensures
        wrap(wrap(x) * y) == wrap(x * y),
        wrap(y * wrap(x)) == wrap(y * x),
{
    lemma_mul_mod_noop(x, y, modulus());
    lemma_mul_mod_noop(x % modulus(), y, modulus());
    lemma_mul_mod_noop(y, x, modulus());
    lemma_mul_mod_noop(y, x % modulus(), modulus());
}

/// Congruent values stay congruent when the same value is added.
pub proof fn lemma_wrap_eq_add(x: int, y: int, c: int)
    requires
        wrap(x) == wrap(y),
    ensures
        wrap(x + c) == wrap(y + c),
        wrap(c - x) == wrap(c - y),
{
    lemma_wrap_add(x, c);
    lemma_wrap_add(y, c);
    lemma_wrap_sub(x, c);
    lemma_wrap_sub(y, c);
}

/// Adding a multiple of 2^64 does not change the residue.
pub proof fn lemma_wrap_shift(x: int, q: int)
    ensures
        wrap(x + q * modulus()) == wrap(x),
{
    vstd::arithmetic::div_mod::lemma_mod_multiples_vanish(q, x, modulus());
}

} // verus!
