//! LWE ciphertexts over the torus Z/2^64, key switching and modulus switching.
use crate::arith::{
    lemma_wrap_add, lemma_wrap_eq_add, lemma_wrap_mul, lemma_wrap_sub, lemma_wrapping_add,
    lemma_wrapping_add_signed, lemma_wrapping_mul, lemma_wrapping_sub, wrap,
};
use crate::utils::{decode_spec, encode_spec, lemma_decode_window, lemma_encode_add, lemma_encode_sub};
use crate::ggsw::{decomposition, lemma_i8_as_u64, limb_hi, limb_lo};
use crate::rng::{random_bit, random_u64};
use crate::{ELL, LWE_DIM};
use vstd::arithmetic::div_mod::{lemma_add_mod_noop, lemma_mod_mod, lemma_sub_mod_noop};
use vstd::prelude::*;

verus! {

/// A mask of `LWE_DIM` torus values and a body.
#[derive(Clone)]
pub struct LweCiphertext {
    pub mask: Vec<u64>,
    pub body: u64,
}

/// A key of `LWE_DIM` bits, one per `u64`.
pub type LweSecretKey = Vec<u64>;

/// For each bit of a source key and each decomposition layer, an encryption of that bit
/// in the layer's gadget position under the target key.
pub type KeySwitchingKey = Vec<LweCiphertext>;

/// The sum, over the integers, of the first `m` mask values whose key bit is 1.
pub open spec fn dot_bits(mask: Seq<u64>, sk: Seq<u64>, m: int) -> int
    decreases m,
{
    if m <= 0 {
        0
    } else {
        dot_bits(mask, sk, m - 1) + if sk[m - 1] == 1 {
            mask[m - 1] as int
        } else {
            0int
        }
    }
}

/// The value that decryption of `c` under `sk` yields: the plaintext plus the noise.
pub open spec fn lwe_phase(c: LweCiphertext, sk: Seq<u64>) -> u64 {
    wrap(c.body - dot_bits(c.mask@, sk, LWE_DIM as int))
}

/// `c` is an encryption under `sk` of `mu` (noise included).
pub open spec fn lwe_encrypts(c: LweCiphertext, sk: Seq<u64>, mu: int) -> bool {
    &&& c.mask@.len() == LWE_DIM
    &&& c.body == wrap(mu + dot_bits(c.mask@, sk, LWE_DIM as int))
}

/// `r` is the coordinate-wise sum of `a` and `b` modulo 2^64.
pub open spec fn lwe_is_sum(r: LweCiphertext, a: LweCiphertext, b: LweCiphertext) -> bool {
    &&& r.mask@.len() == a.mask@.len()
    &&& forall|i: int|
        0 <= i < r.mask@.len() ==> #[trigger] r.mask@[i] == wrap(a.mask@[i] + b.mask@[i])
    &&& r.body == wrap(a.body + b.body)
}

/// `r` is the coordinate-wise difference of `a` and `b` modulo 2^64.
pub open spec fn lwe_is_difference(r: LweCiphertext, a: LweCiphertext, b: LweCiphertext) -> bool {
    &&& r.mask@.len() == a.mask@.len()
    &&& forall|i: int|
        0 <= i < r.mask@.len() ==> #[trigger] r.mask@[i] == wrap(a.mask@[i] - b.mask@[i])
    &&& r.body == wrap(a.body - b.body)
}

/// Rounds a torus value to the modulus 2N = 2^11, to nearest and halves up: a value in [0, 2N].
pub open spec fn modswitch_value(x: u64) -> u64 {
    (((x >> 52u64) + 1) / 2) as u64
}

/// Source key bit `bit` in gadget position `j`: weight 2^48 for the low layer, 2^56 for the high one.
pub open spec fn ksk_plaintext(bit: u64, j: int) -> u64 {
    bit << ((48 + 8 * j) as u64)
}

/// Coordinate `j` (the body when `j == LWE_DIM`) of the key switching key entry `t`.
pub open spec fn ksk_coord(ksk: Seq<LweCiphertext>, t: int, j: int) -> int {
    if j < LWE_DIM {
        ksk[t].mask@[j] as int
    } else {
        ksk[t].body as int
    }
}

/// Coordinate `j` of an LWE ciphertext, the body standing at `j == LWE_DIM`.
pub open spec fn lwe_coord(c: LweCiphertext, j: int) -> u64 {
    if j < LWE_DIM {
        c.mask@[j]
    } else {
        c.body
    }
}

/// What key switching subtracts at coordinate `j` for the first `m` mask values of `a`:
/// each key switching key entry scaled by its signed limb.
pub open spec fn ks_sum(ksk: Seq<LweCiphertext>, a: Seq<u64>, m: int, j: int) -> int
    decreases m,
{
    if m <= 0 {
        0
    } else {
        ks_sum(ksk, a, m - 1, j) + ksk_coord(ksk, ELL * (m - 1), j) * limb_lo(a[m - 1])
            + ksk_coord(ksk, ELL * (m - 1) + 1, j) * limb_hi(a[m - 1])
    }
}

/// A key switching key holds `ELL` entries of full dimension per source key bit.
pub open spec fn ksk_wf(ksk: Seq<LweCiphertext>) -> bool {
    &&& ksk.len() == ELL * LWE_DIM
    &&& forall|t: int| 0 <= t < ksk.len() ==> (#[trigger] ksk[t]).wf()
}

/// The masked sum of `mask` under `sk`, modulo 2^64.
fn masked_dot(mask: &Vec<u64>, sk: &LweSecretKey) -> (r: u64)
    requires
        mask@.len() == LWE_DIM,
        sk@.len() == LWE_DIM,
    ensures
        r == wrap(dot_bits(mask@, sk@, LWE_DIM as int)),
{
    let mut body: u64 = 0;
    let mut i: usize = 0;
    while i < LWE_DIM
        invariant
            i <= LWE_DIM,
            mask@.len() == LWE_DIM,
            sk@.len() == LWE_DIM,
            body == wrap(dot_bits(mask@, sk@, i as int)),
        decreases LWE_DIM - i,
    {
        if sk[i] == 1 {
            proof {
                lemma_wrapping_add(body, mask@[i as int]);
                lemma_wrap_add(dot_bits(mask@, sk@, i as int), mask@[i as int] as int);
            }
            body = body.wrapping_add(mask[i]);
        }
        i += 1;
    }
    body
}

impl LweCiphertext {
    /// The mask has the dimension of the keys.
    pub open spec fn wf(&self) -> bool {
        self.mask@.len() == LWE_DIM
    }

    /// Encrypts `mu` under `sk` with the noise `e`, which the caller draws (rounded
    /// Gaussian, sigma = 2^29). The mask is drawn uniformly at random.
    pub fn encrypt(mu: u64, sk: &LweSecretKey, e: i64) -> (r: LweCiphertext)
        requires
            sk@.len() == LWE_DIM,
        ensures
            lwe_encrypts(r, sk@, mu + e),
    {
        let mu_star = mu.wrapping_add_signed(e);
        let mut mask: Vec<u64> = Vec::with_capacity(LWE_DIM);
        let mut i: usize = 0;
        while i < LWE_DIM
            invariant
                i <= LWE_DIM,
                mask@.len() == i,
            decreases LWE_DIM - i,
        {
            mask.push(random_u64());
            i += 1;
        }
        let body = masked_dot(&mask, sk);
        proof {
            let d = dot_bits(mask@, sk@, LWE_DIM as int);
            lemma_wrapping_add_signed(mu, e);
            lemma_wrapping_add(body, mu_star);
            lemma_wrap_add(d, mu_star as int);
            lemma_wrap_add(mu + e, d);
        }
        LweCiphertext { mask, body: body.wrapping_add(mu_star) }
    }

    /// Removes the masked sum from the body: the plaintext plus the noise.
    pub fn decrypt(self, sk: &LweSecretKey) -> (r: u64)
        requires
            self.wf(),
            sk@.len() == LWE_DIM,
        ensures
            r == lwe_phase(self, sk@),
    {
        let body = masked_dot(&self.mask, sk);
        proof {
            lemma_wrapping_sub(self.body, body);
            lemma_wrap_sub(dot_bits(self.mask@, sk@, LWE_DIM as int), self.body as int);
        }
        self.body.wrapping_sub(body)
    }

    /// Decryption of a ciphertext whose modulus was switched to 2N: the phase modulo 2N.
    pub fn decrypt_modswitched(self, sk: &LweSecretKey) -> (r: u64)
        requires
            self.wf(),
            sk@.len() == LWE_DIM,
        ensures
            r as int == (self.body - dot_bits(self.mask@, sk@, LWE_DIM as int)) % (2 * LWE_DIM as int),
    {
        let m: u64 = 2 * LWE_DIM as u64;
        let mut dot_prod: u64 = 0;
        let mut i: usize = 0;
        while i < LWE_DIM
            invariant
                i <= LWE_DIM,
                m == 2048,
                self.wf(),
                sk@.len() == LWE_DIM,
                dot_prod as int == dot_bits(self.mask@, sk@, i as int) % 2048,
            decreases LWE_DIM - i,
        {
            if sk[i] == 1 {
                proof {
                    let d = dot_bits(self.mask@, sk@, i as int);
                    let x = self.mask@[i as int] as int;
                    lemma_wrapping_add(dot_prod, self.mask@[i as int]);
                    lemma_mod_mod(dot_prod + x, 2048, 0x20_0000_0000_0000);
                    lemma_add_mod_noop(d, x, 2048);
                    lemma_add_mod_noop(dot_prod as int, x, 2048);
                    vstd::arithmetic::div_mod::lemma_mod_twice(d, 2048);
                }
                dot_prod = dot_prod.wrapping_add(self.mask[i]) % m;
            }
            i += 1;
        }
        proof {
            let d = dot_bits(self.mask@, sk@, LWE_DIM as int);
            lemma_wrapping_sub(self.body, dot_prod);
            lemma_mod_mod(self.body - dot_prod, 2048, 0x20_0000_0000_0000);
            lemma_sub_mod_noop(self.body as int, d, 2048);
            lemma_sub_mod_noop(self.body as int, dot_prod as int, 2048);
            vstd::arithmetic::div_mod::lemma_mod_twice(d, 2048);
        }
        self.body.wrapping_sub(dot_prod) % m
    }

    /// Coordinate-wise sum modulo 2^64.
    pub fn add(self, rhs: Self) -> (r: Self)
        requires
            self.mask@.len() == rhs.mask@.len(),
        ensures
            lwe_is_sum(r, self, rhs),
    {
        let mut mask: Vec<u64> = Vec::with_capacity(self.mask.len());
        let mut i: usize = 0;
        while i < self.mask.len()
            invariant
                i <= self.mask@.len(),
                self.mask@.len() == rhs.mask@.len(),
                mask@.len() == i,
                forall|t: int| 0 <= t < i ==> #[trigger] mask@[t] == wrap(self.mask@[t] + rhs.mask@[t]),
            decreases self.mask@.len() - i,
        {
            proof {
                lemma_wrapping_add(self.mask@[i as int], rhs.mask@[i as int]);
            }
            mask.push(self.mask[i].wrapping_add(rhs.mask[i]));
            i += 1;
        }
        proof {
            lemma_wrapping_add(self.body, rhs.body);
        }
        LweCiphertext { mask, body: self.body.wrapping_add(rhs.body) }
    }

    /// Coordinate-wise difference modulo 2^64.
    pub fn sub(self, rhs: &Self) -> (r: Self)
        requires
            self.mask@.len() == rhs.mask@.len(),
        ensures
            lwe_is_difference(r, self, *rhs),
    {
        let mut mask: Vec<u64> = Vec::with_capacity(self.mask.len());
        let mut i: usize = 0;
        while i < self.mask.len()
            invariant
                i <= self.mask@.len(),
                self.mask@.len() == rhs.mask@.len(),
                mask@.len() == i,
                forall|t: int| 0 <= t < i ==> #[trigger] mask@[t] == wrap(self.mask@[t] - rhs.mask@[t]),
            decreases self.mask@.len() - i,
        {
            proof {
                lemma_wrapping_sub(self.mask@[i as int], rhs.mask@[i as int]);
            }
            mask.push(self.mask[i].wrapping_sub(rhs.mask[i]));
            i += 1;
        }
        proof {
            lemma_wrapping_sub(self.body, rhs.body);
        }
        LweCiphertext { mask, body: self.body.wrapping_sub(rhs.body) }
    }

    /// Multiplies every coordinate by `constant`, modulo 2^64.
    pub fn multiply_constant_assign(&mut self, constant: u64) -> (r: &mut Self)
        ensures
            *final(self) == *final(r),
            r.mask@.len() == old(self).mask@.len(),
            forall|i: int|
                0 <= i < old(self).mask@.len() ==> #[trigger] r.mask@[i] == wrap(
                    old(self).mask@[i] * constant,
                ),
            r.body == wrap(old(self).body * constant),
    {
        let ghost m0 = self.mask@;
        let mut i: usize = 0;
        while i < self.mask.len()
            invariant
                i <= self.mask@.len(),
                self.mask@.len() == m0.len(),
                self.body == old(self).body,
                m0 == old(self).mask@,
                forall|t: int| 0 <= t < i ==> #[trigger] self.mask@[t] == wrap(m0[t] * constant),
                forall|t: int| i <= t < m0.len() ==> #[trigger] self.mask@[t] == m0[t],
            decreases m0.len() - i,
        {
            proof {
                lemma_wrapping_mul(self.mask@[i as int], constant);
            }
            let v = self.mask[i].wrapping_mul(constant);
            self.mask.set(i, v);
            i += 1;
        }
        proof {
            lemma_wrapping_mul(self.body, constant);
        }
        self.body = self.body.wrapping_mul(constant);
        self
    }

    /// Switches from modulus 2^64 to 2N = 2^11, rounding every coordinate to nearest.
    pub fn modswitch(&self) -> (r: Self)
        ensures
            r.mask@.len() == self.mask@.len(),
            forall|i: int|
                0 <= i < r.mask@.len() ==> #[trigger] r.mask@[i] == modswitch_value(self.mask@[i]),
            r.body == modswitch_value(self.body),
    {
        let mut mask: Vec<u64> = Vec::with_capacity(self.mask.len());
        let mut i: usize = 0;
        while i < self.mask.len()
            invariant
                i <= self.mask@.len(),
                mask@.len() == i,
                forall|t: int| 0 <= t < i ==> #[trigger] mask@[t] == modswitch_value(self.mask@[t]),
            decreases self.mask@.len() - i,
        {
            mask.push(modswitch_coord(self.mask[i]));
            i += 1;
        }
        LweCiphertext { mask, body: modswitch_coord(self.body) }
    }
}

impl LweCiphertext {
    /// Switches to the key that `ksk` encrypts: each mask value is decomposed into two signed
    /// limbs, and the matching key switching key entries, scaled by them, are subtracted.
    pub fn keyswitch(&self, ksk: &KeySwitchingKey) -> (r: Self)
        requires
            self.wf(),
            ksk_wf(ksk@),
        ensures
            r.wf(),
            forall|j: int|
                0 <= j < LWE_DIM ==> #[trigger] r.mask@[j] == wrap(
                    -ks_sum(ksk@, self.mask@, LWE_DIM as int, j),
                ),
            r.body == wrap(self.body - ks_sum(ksk@, self.mask@, LWE_DIM as int, LWE_DIM as int)),
    {
        let mut keyswitched = LweCiphertext::default();
        keyswitched.body = self.body;
        let mut i: usize = 0;
        while i < LWE_DIM
            invariant
                i <= LWE_DIM,
                self.wf(),
                ksk_wf(ksk@),
                keyswitched.wf(),
                forall|j: int|
                    0 <= j <= LWE_DIM ==> #[trigger] lwe_coord(keyswitched, j) == wrap(
                        (if j < LWE_DIM { 0int } else { self.body as int }) - ks_sum(
                            ksk@,
                            self.mask@,
                            i as int,
                            j,
                        ),
                    ),
            decreases LWE_DIM - i,
        {
            let (decomp_mask_1, decomp_mask_2) = decomposition(self.mask[i]);
            let c1 = decomp_mask_1 as u64;
            let c2 = decomp_mask_2 as u64;
            proof {
                lemma_i8_as_u64(decomp_mask_1);
                lemma_i8_as_u64(decomp_mask_2);
            }
            let e1 = &ksk[ELL * i];
            let e2 = &ksk[ELL * i + 1];
            let mut t1 = LweCiphertext { mask: e1.mask.clone(), body: e1.body };
            let mut t2 = LweCiphertext { mask: e2.mask.clone(), body: e2.body };
            assert(t1.mask@ =~= e1.mask@);
            assert(t2.mask@ =~= e2.mask@);
            t1.multiply_constant_assign(c1);
            t2.multiply_constant_assign(c2);
            let ghost prev = keyswitched;
            let ghost a = self.mask@;
            keyswitched = keyswitched.sub(&t1).sub(&t2);
            proof {
                let ii = i as int;
                assert forall|j: int| 0 <= j <= LWE_DIM implies #[trigger] lwe_coord(keyswitched, j)
                    == wrap(
                    (if j < LWE_DIM { 0int } else { self.body as int }) - ks_sum(ksk@, a, ii + 1, j),
                ) by {
                    assert(lwe_coord(prev, j) == wrap(
                        (if j < LWE_DIM { 0int } else { self.body as int }) - ks_sum(ksk@, a, ii, j),
                    ));
                    let base = if j < LWE_DIM { 0int } else { self.body as int };
                    let p = lwe_coord(prev, j);
                    let k1 = ksk_coord(ksk@, ELL * ii, j);
                    let k2 = ksk_coord(ksk@, ELL * ii + 1, j);
                    let s = ks_sum(ksk@, a, ii, j);
                    let q1 = if j < LWE_DIM { t1.mask@[j] } else { t1.body };
                    let q2 = if j < LWE_DIM { t2.mask@[j] } else { t2.body };
                    assert(q1 == wrap(k1 * c1));
                    assert(q2 == wrap(k2 * c2));
                    lemma_ks_step(p, base, s, k1, c1, limb_lo(a[ii]));
                    lemma_ks_step(
                        wrap(p - q1),
                        base,
                        s + k1 * limb_lo(a[ii]),
                        k2,
                        c2,
                        limb_hi(a[ii]),
                    );
                }
            }
            i += 1;
        }
        assert forall|j: int| 0 <= j < LWE_DIM implies #[trigger] keyswitched.mask@[j] == wrap(
            -ks_sum(ksk@, self.mask@, LWE_DIM as int, j),
        ) by {
            assert(lwe_coord(keyswitched, j) == keyswitched.mask@[j]);
        }
        assert(lwe_coord(keyswitched, LWE_DIM as int) == keyswitched.body);
        keyswitched
    }
}

/// One subtraction of a scaled key switching key coordinate.
proof fn lemma_ks_step(p: u64, base: int, s: int, kc: int, c: u64, d: int)
    requires
        p == wrap(base - s),
        c == wrap(d),
    ensures
        wrap(p - wrap(kc * c)) == wrap(base - (s + kc * d)),
{
    lemma_wrap_mul(d, kc);
    lemma_wrap_sub(kc * d, p as int);
    lemma_wrap_sub(base - s, kc * d);
}

/// Encrypts every bit of `sk1` under `sk2`, once for each decomposition layer, in the
/// layer's gadget position. `noise` holds the noise of each encryption, in order.
pub fn compute_ksk(sk1: &LweSecretKey, sk2: &LweSecretKey, noise: &Vec<i64>) -> (r: KeySwitchingKey)
    requires
        sk1@.len() == LWE_DIM,
        sk2@.len() == LWE_DIM,
        noise@.len() == ELL * LWE_DIM,
    ensures
        ksk_wf(r@),
        forall|i: int, j: int|
            0 <= i < LWE_DIM && 0 <= j < ELL ==> lwe_encrypts(
                #[trigger] r@[ELL * i + j],
                sk2@,
                ksk_plaintext(sk1@[i], j) + noise@[ELL * i + j],
            ),
{
    let mut ksk: Vec<LweCiphertext> = Vec::new();
    let mut i: usize = 0;
    while i < LWE_DIM
        invariant
            i <= LWE_DIM,
            sk1@.len() == LWE_DIM,
            sk2@.len() == LWE_DIM,
            noise@.len() == ELL * LWE_DIM,
            ksk@.len() == ELL * i,
            forall|t: int| 0 <= t < ksk@.len() ==> (#[trigger] ksk@[t]).wf(),
            forall|ii: int, j: int|
                0 <= ii < i && 0 <= j < ELL ==> lwe_encrypts(
                    #[trigger] ksk@[ELL * ii + j],
                    sk2@,
                    ksk_plaintext(sk1@[ii], j) + noise@[ELL * ii + j],
                ),
        decreases LWE_DIM - i,
    {
        let bit = sk1[i];
        let mut j: usize = 0;
        while j < ELL
            invariant
                i < LWE_DIM,
                j <= ELL,
                sk1@.len() == LWE_DIM,
                sk2@.len() == LWE_DIM,
                noise@.len() == ELL * LWE_DIM,
                bit == sk1@[i as int],
                ksk@.len() == ELL * i + j,
                forall|t: int| 0 <= t < ksk@.len() ==> (#[trigger] ksk@[t]).wf(),
                forall|ii: int, jj: int|
                    0 <= ii < i && 0 <= jj < ELL ==> lwe_encrypts(
                        #[trigger] ksk@[ELL * ii + jj],
                        sk2@,
                        ksk_plaintext(sk1@[ii], jj) + noise@[ELL * ii + jj],
                    ),
                forall|jj: int|
                    0 <= jj < j ==> lwe_encrypts(
                        #[trigger] ksk@[ELL * i + jj],
                        sk2@,
                        ksk_plaintext(bit, jj) + noise@[ELL * i + jj],
                    ),
            decreases ELL - j,
        {
            let shift: u64 = 40 + 8 * (j as u64 + 1);
            let mu = bit << shift;
            let ct = LweCiphertext::encrypt(mu, sk2, noise[ELL * i + j]);
            ksk.push(ct);
            j += 1;
        }
        i += 1;
    }
    ksk
}

/// The masked sum of a coordinate-wise sum is the sum of the masked sums, modulo 2^64.
proof fn lemma_dot_add(r: Seq<u64>, a: Seq<u64>, b: Seq<u64>, sk: Seq<u64>, m: int)
    requires
        0 <= m <= r.len(),
        m <= a.len(),
        m <= b.len(),
        forall|i: int| 0 <= i < m ==> #[trigger] r[i] == wrap(a[i] + b[i]),
    ensures
        wrap(dot_bits(r, sk, m)) == wrap(dot_bits(a, sk, m) + dot_bits(b, sk, m)),
    decreases m,
{
    if m > 0 {
        lemma_dot_add(r, a, b, sk, m - 1);
        let dr = dot_bits(r, sk, m - 1);
        let ds = dot_bits(a, sk, m - 1) + dot_bits(b, sk, m - 1);
        let tr = if sk[m - 1] == 1 { r[m - 1] as int } else { 0int };
        let ts = if sk[m - 1] == 1 { a[m - 1] + b[m - 1] } else { 0int };
        lemma_wrap_eq_add(dr, ds, tr);
        lemma_wrap_add(a[m - 1] + b[m - 1], ds);
        assert(wrap(ds + tr) == wrap(ds + ts));
        assert(dot_bits(a, sk, m) + dot_bits(b, sk, m) == ds + ts);
    }
}

/// The masked sum of a coordinate-wise difference is the difference of the masked sums,
/// modulo 2^64.
proof fn lemma_dot_sub(r: Seq<u64>, a: Seq<u64>, b: Seq<u64>, sk: Seq<u64>, m: int)
    requires
        0 <= m <= r.len(),
        m <= a.len(),
        m <= b.len(),
        forall|i: int| 0 <= i < m ==> #[trigger] r[i] == wrap(a[i] - b[i]),
    ensures
        wrap(dot_bits(r, sk, m)) == wrap(dot_bits(a, sk, m) - dot_bits(b, sk, m)),
    decreases m,
{
    if m > 0 {
        lemma_dot_sub(r, a, b, sk, m - 1);
        let dr = dot_bits(r, sk, m - 1);
        let ds = dot_bits(a, sk, m - 1) - dot_bits(b, sk, m - 1);
        let tr = if sk[m - 1] == 1 { r[m - 1] as int } else { 0int };
        let ts = if sk[m - 1] == 1 { a[m - 1] - b[m - 1] } else { 0int };
        lemma_wrap_eq_add(dr, ds, tr);
        lemma_wrap_add(a[m - 1] - b[m - 1], ds);
        assert(wrap(ds + tr) == wrap(ds + ts));
        assert(dot_bits(a, sk, m) - dot_bits(b, sk, m) == ds + ts);
    }
}

/// Decryption of an encryption of `mu` yields `mu` modulo 2^64.
pub proof fn lemma_lwe_phase(c: LweCiphertext, sk: Seq<u64>, mu: int)
    requires
        lwe_encrypts(c, sk, mu),
    ensures
        lwe_phase(c, sk) == wrap(mu),
{
    let d = dot_bits(c.mask@, sk, LWE_DIM as int);
    lemma_wrap_sub(mu + d, d);
}

/// Decrypting and decoding an encryption of encode(pt) gives `pt` back, when the noise
/// is less than 2^59 in magnitude.
pub proof fn lemma_lwe_round_trip(c: LweCiphertext, sk: Seq<u64>, pt: u8, e: int)
    requires
        pt < 16,
        -0x0800_0000_0000_0000 <= e < 0x0800_0000_0000_0000,
        lwe_encrypts(c, sk, encode_spec(pt) + e),
    ensures
        decode_spec(lwe_phase(c, sk)) == pt,
{
    lemma_lwe_phase(c, sk, encode_spec(pt) + e);
    lemma_decode_window(pt, e);
}

/// The sum of encryptions of encode(a) and encode(b) decrypts and decodes to (a + b) mod 16,
/// when the two noises add up to less than 2^59 in magnitude.
pub proof fn lemma_lwe_add(
    c1: LweCiphertext,
    c2: LweCiphertext,
    r: LweCiphertext,
    sk: Seq<u64>,
    a: u8,
    b: u8,
    e1: int,
    e2: int,
)
    requires
        a < 16,
        b < 16,
        -0x0800_0000_0000_0000 <= e1 + e2 < 0x0800_0000_0000_0000,
        lwe_encrypts(c1, sk, encode_spec(a) + e1),
        lwe_encrypts(c2, sk, encode_spec(b) + e2),
        lwe_is_sum(r, c1, c2),
    ensures
        decode_spec(lwe_phase(r, sk)) == (a + b) % 16,
{
    let n = LWE_DIM as int;
    let mu1 = encode_spec(a) + e1;
    let mu2 = encode_spec(b) + e2;
    let da = dot_bits(c1.mask@, sk, n);
    let db = dot_bits(c2.mask@, sk, n);
    let dr = dot_bits(r.mask@, sk, n);
    lemma_dot_add(r.mask@, c1.mask@, c2.mask@, sk, n);
    lemma_wrap_sub(c1.body + c2.body, dr);
    lemma_wrap_eq_add(dr, da + db, c1.body + c2.body);
    lemma_wrap_add(mu1 + da, c2.body - da - db);
    lemma_wrap_add(mu2 + db, mu1 - db);
    assert(lwe_phase(r, sk) == wrap(mu1 + mu2));
    lemma_encode_add(a, b, e1 + e2);
    lemma_decode_window(((a + b) % 16) as u8, e1 + e2);
}

/// The difference of encryptions of encode(a) and encode(b) decrypts and decodes to
/// (a - b) mod 16, when the difference of the noises is less than 2^59 in magnitude.
pub proof fn lemma_lwe_sub(
    c1: LweCiphertext,
    c2: LweCiphertext,
    r: LweCiphertext,
    sk: Seq<u64>,
    a: u8,
    b: u8,
    e1: int,
    e2: int,
)
    requires
        a < 16,
        b < 16,
        -0x0800_0000_0000_0000 <= e1 - e2 < 0x0800_0000_0000_0000,
        lwe_encrypts(c1, sk, encode_spec(a) + e1),
        lwe_encrypts(c2, sk, encode_spec(b) + e2),
        lwe_is_difference(r, c1, c2),
    ensures
        decode_spec(lwe_phase(r, sk)) == (a - b) % 16,
{
    let n = LWE_DIM as int;
    let mu1 = encode_spec(a) + e1;
    let mu2 = encode_spec(b) + e2;
    let da = dot_bits(c1.mask@, sk, n);
    let db = dot_bits(c2.mask@, sk, n);
    let dr = dot_bits(r.mask@, sk, n);
    lemma_dot_sub(r.mask@, c1.mask@, c2.mask@, sk, n);
    lemma_wrap_sub(c1.body - c2.body, dr);
    lemma_wrap_eq_add(dr, da - db, c1.body - c2.body);
    lemma_wrap_add(mu1 + da, -c2.body - da + db);
    lemma_wrap_sub(mu2 + db, mu1 + db);
    assert(lwe_phase(r, sk) == wrap(mu1 - mu2));
    lemma_encode_sub(a, b, e1 - e2);
    lemma_decode_window(((a - b) % 16) as u8, e1 - e2);
}

/// `((x >> 52) + 1) >> 1`.
fn modswitch_coord(x: u64) -> (r: u64)
    ensures
        r == modswitch_value(x),
        r <= 2048,
{
    assert((x >> 52u64) < 4096) by (bit_vector);
    let t = (x >> 52) + 1;
    assert(t >> 1u64 == t / 2) by (bit_vector);
    t >> 1
}

impl Default for LweCiphertext {
    fn default() -> (r: Self)
        ensures
            r.mask@ == Seq::new(LWE_DIM as nat, |i: int| 0u64),
            r.body == 0,
    {
        let mut mask: Vec<u64> = Vec::with_capacity(LWE_DIM);
        let mut i: usize = 0;
        while i < LWE_DIM
            invariant
                i <= LWE_DIM,
                mask@ == Seq::new(i as nat, |t: int| 0u64),
            decreases LWE_DIM - i,
        {
            mask.push(0);
            i += 1;
        }
        LweCiphertext { mask, body: 0 }
    }
}

/// A key of `LWE_DIM` bits drawn at random.
pub fn lwe_keygen() -> (sk: LweSecretKey)
    ensures
        sk@.len() == LWE_DIM,
        forall|i: int| 0 <= i < LWE_DIM ==> #[trigger] sk@[i] <= 1,
{
    let mut sk: Vec<u64> = Vec::with_capacity(LWE_DIM);
    let mut i: usize = 0;
    while i < LWE_DIM
        invariant
            i <= LWE_DIM,
            sk@.len() == i,
            forall|t: int| 0 <= t < i ==> #[trigger] sk@[t] <= 1,
        decreases LWE_DIM - i,
    {
        sk.push(random_bit());
        i += 1;
    }
    sk
}

} // verus!
