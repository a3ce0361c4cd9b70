//! GLWE ciphertexts (k = 1), sample extraction, the lookup table and blind rotation.
use crate::arith::{
    lemma_wrap_add, lemma_wrap_sub, lemma_wrapping_add_signed, lemma_wrapping_sub, wrap,
};
use crate::ggsw::{cmux, cmux_spec, BootstrappingKey, GgswCiphertext};
use crate::lwe::{dot_bits, lwe_phase, LweCiphertext, LweSecretKey};
use crate::poly::{
    nega_sum, nega_term, lemma_mul_add_left, lemma_mul_sub_left, poly_add, poly_add_constant, poly_monomial, poly_mul,
    poly_sub, poly_zero, ResiduePoly,
};
use crate::utils::{
    decode_spec, encode, encode_spec, lemma_decode_window, lemma_encode_add, lemma_encode_sub,
};
use crate::{k, LWE_DIM, N, P};
use vstd::prelude::*;

verus! {

/// A mask of `k` polynomials and a body polynomial.
#[derive(Clone)]
pub struct GlweCiphertext {
    pub mask: Vec<ResiduePoly>,
    pub body: ResiduePoly,
}

/// Set of `k` polynomials in {0, 1}[X]/(X^N + 1).
#[derive(Clone)]
pub struct SecretKey {
    pub polys: Vec<ResiduePoly>,
}

/// A GLWE ciphertext as (mask, body), k being 1.
impl View for GlweCiphertext {
    type V = (Seq<u64>, Seq<u64>);

    open spec fn view(&self) -> (Seq<u64>, Seq<u64>) {
        (self.mask@[0]@, self.body@)
    }
}

pub open spec fn glwe_add(x: (Seq<u64>, Seq<u64>), y: (Seq<u64>, Seq<u64>)) -> (Seq<u64>, Seq<u64>) {
    (poly_add(x.0, y.0), poly_add(x.1, y.1))
}

pub open spec fn glwe_sub(x: (Seq<u64>, Seq<u64>), y: (Seq<u64>, Seq<u64>)) -> (Seq<u64>, Seq<u64>) {
    (poly_sub(x.0, y.0), poly_sub(x.1, y.1))
}

/// Both components multiplied by X^e.
pub open spec fn glwe_rotate(x: (Seq<u64>, Seq<u64>), e: int) -> (Seq<u64>, Seq<u64>) {
    (poly_monomial(x.0, e), poly_monomial(x.1, e))
}

/// The polynomial that decryption under `s` sees: body minus mask times key.
pub open spec fn glwe_phase(x: (Seq<u64>, Seq<u64>), s: Seq<u64>) -> Seq<u64> {
    poly_sub(x.1, poly_mul(x.0, s))
}

/// `x` encrypts the constant `mu` (noise included) under `s`.
pub open spec fn glwe_encrypts(x: (Seq<u64>, Seq<u64>), s: Seq<u64>, mu: int) -> bool {
    &&& x.0.len() == N
    &&& x.1 == poly_add_constant(poly_mul(x.0, s), mu)
}

/// The trivial encryption of `mu`: no mask, `mu` as constant term of the body.
pub open spec fn glwe_trivial(mu: u64) -> (Seq<u64>, Seq<u64>) {
    (poly_zero(), poly_zero().update(0, mu))
}

/// The LWE mask read off a GLWE mask: the constant coefficient, then the others reversed
/// and negated.
pub open spec fn extract_mask(m: Seq<u64>) -> Seq<u64> {
    Seq::new(LWE_DIM as nat, |i: int| if i == 0 { m[0] } else { wrap(-m[N - i]) })
}

/// Slot `t` of the lookup table: slot i holds encode(P * i / 2N), all slots moved 64
/// positions to the left.
pub open spec fn lut_coef(t: int) -> u64 {
    encode_spec(((P * ((t + 64) % (N as int))) / (2 * N as int)) as u8)
}

pub open spec fn lut_poly() -> Seq<u64> {
    Seq::new(N as nat, |t: int| lut_coef(t))
}

/// The exponent that starts blind rotation: -body modulo 2N.
pub open spec fn start_exponent(body: u64) -> int {
    (2 * N as int) - (body as int % (2 * N as int))
}

/// The accumulator after the first `m` CMUX steps of blind rotation from `acc`.
pub open spec fn blind_rotate_spec(
    acc: (Seq<u64>, Seq<u64>),
    mask: Seq<u64>,
    bsk: Seq<GgswCiphertext>,
    m: int,
) -> (Seq<u64>, Seq<u64>)
    decreases m,
{
    if m <= 0 {
        acc
    } else {
        let prev = blind_rotate_spec(acc, mask, bsk, m - 1);
        cmux_spec(bsk[m - 1]@, prev, glwe_rotate(prev, mask[m - 1] as int))
    }
}

/// A bootstrapping key holds one well-formed GGSW ciphertext per LWE key bit.
pub open spec fn bsk_wf(bsk: Seq<GgswCiphertext>) -> bool {
    &&& bsk.len() == N
    &&& forall|i: int| 0 <= i < N ==> (#[trigger] bsk[i]).wf()
}

/// Decryption of a GLWE encryption of `mu` yields `mu` modulo 2^64.
pub proof fn lemma_glwe_phase(x: (Seq<u64>, Seq<u64>), s: Seq<u64>, mu: int)
    requires
        glwe_encrypts(x, s, mu),
    ensures
        glwe_phase(x, s)[0] == wrap(mu),
{
    let m0 = poly_mul(x.0, s)[0];
    lemma_wrap_sub(m0 + mu, m0 as int);
}

/// Decrypting and decoding a GLWE encryption of encode(pt) gives `pt` back, when the
/// noise is less than 2^59 in magnitude.
pub proof fn lemma_glwe_round_trip(x: (Seq<u64>, Seq<u64>), s: Seq<u64>, pt: u8, e: int)
    requires
        pt < 16,
        -0x0800_0000_0000_0000 <= e < 0x0800_0000_0000_0000,
        glwe_encrypts(x, s, encode_spec(pt) + e),
    ensures
        decode_spec(glwe_phase(x, s)[0]) == pt,
{
    lemma_glwe_phase(x, s, encode_spec(pt) + e);
    lemma_decode_window(pt, e);
}

/// The sum of GLWE encryptions of encode(a) and encode(b) decrypts and decodes to
/// (a + b) mod 16, when the two noises add up to less than 2^59 in magnitude.
pub proof fn lemma_glwe_add(
    x: (Seq<u64>, Seq<u64>),
    y: (Seq<u64>, Seq<u64>),
    s: Seq<u64>,
    a: u8,
    b: u8,
    e1: int,
    e2: int,
)
    requires
        s.len() == N,
        a < 16,
        b < 16,
        -0x0800_0000_0000_0000 <= e1 + e2 < 0x0800_0000_0000_0000,
        glwe_encrypts(x, s, encode_spec(a) + e1),
        glwe_encrypts(y, s, encode_spec(b) + e2),
    ensures
        decode_spec(glwe_phase(glwe_add(x, y), s)[0]) == (a + b) % 16,
{
    let mu1 = encode_spec(a) + e1;
    let mu2 = encode_spec(b) + e2;
    let mx = poly_mul(x.0, s)[0] as int;
    let my = poly_mul(y.0, s)[0] as int;
    let x1 = x.1[0] as int;
    let y1 = y.1[0] as int;
    lemma_mul_add_left(x.0, y.0, s);
    lemma_wrap_sub(x1 + y1, wrap(mx + my) as int);
    lemma_wrap_sub(mx + my, x1 + y1);
    lemma_wrap_add(mu1 + mx, y1 - mx - my);
    lemma_wrap_add(mu2 + my, mu1 - my);
    assert(glwe_phase(glwe_add(x, y), s)[0] == wrap(mu1 + mu2));
    lemma_encode_add(a, b, e1 + e2);
    lemma_decode_window(((a + b) % 16) as u8, e1 + e2);
}

/// The difference of GLWE encryptions of encode(a) and encode(b) decrypts and decodes to
/// (a - b) mod 16, when the difference of the noises is less than 2^59 in magnitude.
pub proof fn lemma_glwe_sub(
    x: (Seq<u64>, Seq<u64>),
    y: (Seq<u64>, Seq<u64>),
    s: Seq<u64>,
    a: u8,
    b: u8,
    e1: int,
    e2: int,
)
    requires
        s.len() == N,
        a < 16,
        b < 16,
        -0x0800_0000_0000_0000 <= e1 - e2 < 0x0800_0000_0000_0000,
        glwe_encrypts(x, s, encode_spec(a) + e1),
        glwe_encrypts(y, s, encode_spec(b) + e2),
    ensures
        decode_spec(glwe_phase(glwe_sub(x, y), s)[0]) == (a - b) % 16,
{
    let mu1 = encode_spec(a) + e1;
    let mu2 = encode_spec(b) + e2;
    let mx = poly_mul(x.0, s)[0] as int;
    let my = poly_mul(y.0, s)[0] as int;
    let x1 = x.1[0] as int;
    let y1 = y.1[0] as int;
    lemma_mul_sub_left(x.0, y.0, s);
    lemma_wrap_sub(x1 - y1, wrap(mx - my) as int);
    lemma_wrap_sub(mx - my, x1 - y1);
    lemma_wrap_add(mu1 + mx, -y1 - mx + my);
    lemma_wrap_sub(mu2 + my, mu1 + my);
    assert(glwe_phase(glwe_sub(x, y), s)[0] == wrap(mu1 - mu2));
    lemma_encode_sub(a, b, e1 - e2);
    lemma_decode_window(((a - b) % 16) as u8, e1 - e2);
}

/// The masked sum over the indices in [lo, hi), counting the mask values whose key bit is 1.
spec fn dot_range(mask: Seq<u64>, sk: Seq<u64>, lo: int, hi: int) -> int
    decreases hi - lo,
{
    if hi <= lo {
        0
    } else {
        dot_range(mask, sk, lo, hi - 1) + if sk[hi - 1] == 1 {
            mask[hi - 1] as int
        } else {
            0int
        }
    }
}

/// m[1] s[N-1] + ... + m[j] s[N-j].
spec fn wrapped_products(m: Seq<u64>, s: Seq<u64>, j: int) -> int
    decreases j,
{
    if j <= 0 {
        0
    } else {
        wrapped_products(m, s, j - 1) + m[j] * s[N - j]
    }
}

proof fn lemma_dot_range_from_zero(mask: Seq<u64>, sk: Seq<u64>, m: int)
    requires
        m >= 0,
    ensures
        dot_bits(mask, sk, m) == dot_range(mask, sk, 0, m),
    decreases m,
{
    if m > 0 {
        lemma_dot_range_from_zero(mask, sk, m - 1);
    }
}

/// The lowest index of a range can be taken off first.
proof fn lemma_dot_range_peel(mask: Seq<u64>, sk: Seq<u64>, lo: int, hi: int)
    requires
        lo < hi,
    ensures
        dot_range(mask, sk, lo, hi) == (if sk[lo] == 1 { mask[lo] as int } else { 0int })
            + dot_range(mask, sk, lo + 1, hi),
    decreases hi - lo,
{
    if lo < hi - 1 {
        lemma_dot_range_peel(mask, sk, lo, hi - 1);
        assert(dot_range(mask, sk, lo + 1, hi) == dot_range(mask, sk, lo + 1, hi - 1) + (if sk[hi
            - 1] == 1 {
            mask[hi - 1] as int
        } else {
            0int
        }));
    } else {
        assert(dot_range(mask, sk, lo, lo) == 0);
        assert(dot_range(mask, sk, lo + 1, hi) == 0);
    }
}

/// Coefficient 0 of a product: the constant terms, minus the products that wrap around.
proof fn lemma_nega_sum_zero(m: Seq<u64>, s: Seq<u64>, j: int)
    requires
        1 <= j <= N,
    ensures
        nega_sum(m, s, 0, j) == m[0] * s[0] - wrapped_products(m, s, j - 1),
    decreases j,
{
    if j > 1 {
        lemma_nega_sum_zero(m, s, j - 1);
        assert(nega_term(m, s, 0, j - 1) == -(m[j - 1] * s[N - (j - 1)]));
    } else {
        assert(nega_sum(m, s, 0, 0) == 0);
        assert(nega_term(m, s, 0, 0) == m[0] * s[0]);
        assert(wrapped_products(m, s, 0) == 0);
    }
}

/// The top `t` masked values of an extracted mask sum to minus the last `t` wrapped products.
proof fn lemma_extract_tail(m: Seq<u64>, s: Seq<u64>, t: int)
    requires
        m.len() == N,
        s.len() == N,
        forall|i: int| 0 <= i < N ==> #[trigger] s[i] <= 1,
        0 <= t < N,
    ensures
        wrap(dot_range(extract_mask(m), s, N - t, N as int)) == wrap(-wrapped_products(m, s, t)),
    decreases t,
{
    if t > 0 {
        let e = extract_mask(m);
        let lo = N - t;
        lemma_extract_tail(m, s, t - 1);
        lemma_dot_range_peel(e, s, lo, N as int);
        let rest = dot_range(e, s, lo + 1, N as int);
        let prev = -wrapped_products(m, s, t - 1);
        let term = if s[lo] == 1 { e[lo] as int } else { 0int };
        crate::arith::lemma_wrap_eq_add(rest, prev, term);
        let p = m[t] * s[lo];
        if s[lo] == 1 {
            lemma_wrap_add(-(m[t] as int), prev);
            assert(p == m[t] as int);
        } else {
            assert(s[lo] == 0);
            assert(p == 0);
        }
    }
}

/// Sample extraction keeps the constant coefficient of the phase: the extracted LWE
/// ciphertext decrypts under the recoded key to coefficient 0 of the GLWE decryption.
pub proof fn lemma_sample_extract_phase(x: GlweCiphertext, r: LweCiphertext, s: Seq<u64>)
    requires
        x.wf(),
        s.len() == N,
        forall|i: int| 0 <= i < N ==> #[trigger] s[i] <= 1,
        r.mask@ == extract_mask(x@.0),
        r.body == x@.1[0],
    ensures
        lwe_phase(r, s) == glwe_phase(x@, s)[0],
{
    let m = x@.0;
    let e = extract_mask(m);
    let n = N as int;
    lemma_dot_range_from_zero(e, s, n);
    lemma_dot_range_peel(e, s, 0, n);
    lemma_extract_tail(m, s, n - 1);
    lemma_nega_sum_zero(m, s, n);
    let rest = dot_range(e, s, 1, n);
    let t0 = if s[0] == 1 { m[0] as int } else { 0int };
    assert(t0 == m[0] * s[0]) by (nonlinear_arith)
        requires
            s[0] <= 1,
            t0 == if s[0] == 1 { m[0] as int } else { 0int },
    ;
    crate::arith::lemma_wrap_eq_add(rest, -wrapped_products(m, s, n - 1), t0);
    let d = dot_bits(e, s, n);
    let c = nega_sum(m, s, 0, n);
    assert(wrap(d) == wrap(c));
    crate::arith::lemma_wrap_eq_add(d, c, r.body as int);
    lemma_wrap_sub(c, r.body as int);
}

/// A polynomial of `poly_zero` plus `p` is `p`.
proof fn lemma_poly_add_zero(p: Seq<u64>)
    requires
        p.len() == N,
    ensures
        poly_add(poly_zero(), p) == p,
{
    assert forall|i: int| 0 <= i < N implies #[trigger] poly_add(poly_zero(), p)[i] == p[i] by {
        crate::arith::lemma_wrap_id(p[i]);
    }
    assert(poly_add(poly_zero(), p) =~= p);
}

pub(crate) fn single(p: ResiduePoly) -> (r: Vec<ResiduePoly>)
    ensures
        r@ == seq![p],
{
    let mut v: Vec<ResiduePoly> = Vec::new();
    v.push(p);
    assert(v@ =~= seq![p]);
    v
}

impl SecretKey {
    pub open spec fn wf(&self) -> bool {
        &&& self.polys@.len() == k
        &&& self.polys@[0].wf()
    }

    /// Whether the key holds `k` polynomials of N coefficients.
    pub fn is_wf(&self) -> (r: bool)
        ensures
            r == self.wf(),
    {
        self.polys.len() == k && self.polys[0].coefs.len() == N
    }

    /// The key polynomial.
    pub open spec fn key(&self) -> Seq<u64> {
        self.polys@[0]@
    }

    /// Converts a GLWE secret key into an LWE secret key: the coefficients of its polynomial.
    pub fn recode(&self) -> (r: LweSecretKey)
        requires
            self.wf(),
        ensures
            r@ == self.key(),
    {
        let r = self.polys[0].coefs.clone();
        assert(r@ =~= self.key());
        r
    }
}

/// A GLWE key drawn at random: coefficients in {0, 1}.
pub fn keygen() -> (r: SecretKey)
    ensures
        r.wf(),
        forall|i: int| 0 <= i < N ==> #[trigger] r.key()[i] <= 1,
{
    SecretKey { polys: single(ResiduePoly::get_random_bin()) }
}

impl GlweCiphertext {
    pub open spec fn wf(&self) -> bool {
        &&& self.mask@.len() == k
        &&& self.mask@[0].wf()
        &&& self.body.wf()
    }

    /// Whether the ciphertext has `k` mask polynomials and all its polynomials N coefficients.
    pub fn is_wf(&self) -> (r: bool)
        ensures
            r == self.wf(),
    {
        self.mask.len() == k && self.mask[0].coefs.len() == N && self.body.coefs.len() == N
    }

    /// A copy with the same polynomials.
    pub fn duplicate(&self) -> (r: Self)
        requires
            self.wf(),
        ensures
            r.wf(),
            r@ == self@,
    {
        GlweCiphertext { mask: single(self.mask[0].duplicate()), body: self.body.duplicate() }
    }

    /// Encrypts `mu` under `sk` with the noise `e`, which the caller draws (rounded
    /// Gaussian, sigma = 2^39). The mask is drawn uniformly at random.
    pub fn encrypt(mu: u64, sk: &SecretKey, e: i64) -> (r: GlweCiphertext)
        requires
            sk.wf(),
        ensures
            r.wf(),
            glwe_encrypts(r@, sk.key(), mu + e),
    {
        let mu_star = mu.wrapping_add_signed(e);
        let a = ResiduePoly::get_random();
        let mut body = ResiduePoly::default();
        body.add_assign(&a.mul(&sk.polys[0]));
        proof {
            lemma_poly_add_zero(poly_mul(a@, sk.key()));
        }
        body.add_constant_assign(mu_star);
        proof {
            let m = poly_mul(a@, sk.key());
            lemma_wrapping_add_signed(mu, e);
            lemma_wrap_add(mu + e, m[0] as int);
            assert(wrap(m[0] + mu_star) == wrap(m[0] + (mu + e)));
        }
        GlweCiphertext { mask: single(a), body }
    }

    /// The constant coefficient of body minus mask times key: the plaintext plus the noise.
    pub fn decrypt(&self, sk: &SecretKey) -> (r: u64)
        requires
            self.wf(),
            sk.wf(),
        ensures
            r == glwe_phase(self@, sk.key())[0],
    {
        let mut body = ResiduePoly::default();
        body.add_assign(&self.mask[0].mul(&sk.polys[0]));
        proof {
            lemma_poly_add_zero(poly_mul(self@.0, sk.key()));
        }
        let mu_star = self.body.sub(&body);
        mu_star.coefs[0]
    }

    pub fn add(&self, rhs: &Self) -> (r: Self)
        requires
            self.wf(),
            rhs.wf(),
        ensures
            r.wf(),
            r@ == glwe_add(self@, rhs@),
    {
        GlweCiphertext {
            mask: single(self.mask[0].add(&rhs.mask[0])),
            body: self.body.add(&rhs.body),
        }
    }

    pub fn sub(&self, rhs: &Self) -> (r: Self)
        requires
            self.wf(),
            rhs.wf(),
        ensures
            r.wf(),
            r@ == glwe_sub(self@, rhs@),
    {
        GlweCiphertext {
            mask: single(self.mask[0].sub(&rhs.mask[0])),
            body: self.body.sub(&rhs.body),
        }
    }

    /// Converts a GLWE ciphertext into an LWE ciphertext under the recoded key.
    pub fn sample_extract(&self) -> (r: LweCiphertext)
        requires
            self.wf(),
        ensures
            r.mask@ == extract_mask(self@.0),
            r.body == self@.1[0],
    {
        let m = &self.mask[0].coefs;
        let mut mask: Vec<u64> = Vec::with_capacity(LWE_DIM);
        mask.push(m[0]);
        let mut i: usize = 1;
        while i < LWE_DIM
            invariant
                1 <= i <= LWE_DIM,
                m@ == self@.0,
                m@.len() == N,
                mask@ =~= extract_mask(self@.0).take(i as int),
            decreases LWE_DIM - i,
        {
            proof {
                lemma_wrapping_sub(0, m@[N - i]);
            }
            mask.push(0u64.wrapping_sub(m[LWE_DIM - i]));
            i += 1;
        }
        assert(mask@ =~= extract_mask(self@.0));
        LweCiphertext { mask, body: self.body.coefs[0] }
    }

    /// Trivially encrypts `mu`: zero mask, `mu` as constant term of the body.
    pub fn trivial_encrypt(mu: u64) -> (r: Self)
        ensures
            r.wf(),
            r@ == glwe_trivial(mu),
    {
        let mut body = ResiduePoly::default();
        body.coefs.set(0, mu);
        GlweCiphertext { mask: single(ResiduePoly::default()), body }
    }

    /// The accumulator before the first CMUX step of blind rotation: `self` with its body
    /// multiplied by X^{-c.body}. `self` is assumed to be a trivial encryption.
    pub fn blind_rotation_start(&self, c: &LweCiphertext) -> (r: Self)
        requires
            self.wf(),
        ensures
            r.wf(),
            r@ == (self@.0, poly_monomial(self@.1, start_exponent(c.body))),
    {
        let mut c_prime = self.duplicate();
        c_prime.rotate_trivial((2 * N as u64) - c.body % (2 * N as u64));
        c_prime
    }

    /// Performs the blind rotation of `self` by the modulus-switched LWE ciphertext `c`:
    /// for each mask value, a CMUX under the matching key bit between the accumulator and
    /// the accumulator rotated by that value.
    pub fn blind_rotate(&self, c: LweCiphertext, bsk: &BootstrappingKey) -> (r: Self)
        requires
            self.wf(),
            c.wf(),
            bsk_wf(bsk@),
        ensures
            r.wf(),
            r@ == blind_rotate_spec(
                (self@.0, poly_monomial(self@.1, start_exponent(c.body))),
                c.mask@,
                bsk@,
                N as int,
            ),
    {
        let mut c_prime = self.blind_rotation_start(&c);
        let ghost acc = c_prime@;
        let mut i: usize = 0;
        while i < N
            invariant
                i <= N,
                c.wf(),
                bsk_wf(bsk@),
                c_prime.wf(),
                c_prime@ == blind_rotate_spec(acc, c.mask@, bsk@, i as int),
            decreases N - i,
        {
            let rotated = c_prime.rotate(c.mask[i]);
            c_prime = cmux(&bsk[i], &c_prime, &rotated);
            i += 1;
        }
        c_prime
    }

    /// Multiplies the body of `self` by the monomial `X^exponent`.
    /// `self` is assumed to be a trivial encryption.
    pub fn rotate_trivial(&mut self, exponent: u64)
        requires
            old(self).wf(),
        ensures
            final(self).wf(),
            final(self)@ == (old(self)@.0, poly_monomial(old(self)@.1, exponent as int)),
    {
        let e = (exponent % (2 * N as u64)) as usize;
        self.body = self.body.multiply_by_monomial(e);
        proof {
            lemma_monomial_reduce(old(self)@.1, exponent as int);
        }
    }

    /// Multiplies every component of `self` by the monomial `X^exponent`.
    pub fn rotate(&self, exponent: u64) -> (r: Self)
        requires
            self.wf(),
        ensures
            r.wf(),
            r@ == glwe_rotate(self@, exponent as int),
    {
        let e = (exponent % (2 * N as u64)) as usize;
        proof {
            lemma_monomial_reduce(self@.0, exponent as int);
            lemma_monomial_reduce(self@.1, exponent as int);
        }
        GlweCiphertext {
            mask: single(self.mask[0].multiply_by_monomial(e)),
            body: self.body.multiply_by_monomial(e),
        }
    }

    /// Trivially encrypts the lookup table polynomial.
    pub fn trivial_encrypt_lut_poly() -> (r: Self)
        ensures
            r.wf(),
            r@ == (poly_zero(), lut_poly()),
    {
        let mut lut_coefs: Vec<u64> = Vec::with_capacity(N);
        let mut t: usize = 0;
        while t < N
            invariant
                t <= N,
                lut_coefs@ =~= lut_poly().take(t as int),
            decreases N - t,
        {
            let slot = (t + 64) % N;
            let v = encode(((P * slot) / (2 * N)) as u8);
            lut_coefs.push(v);
            t += 1;
        }
        GlweCiphertext {
            mask: single(ResiduePoly::default()),
            body: ResiduePoly { coefs: lut_coefs },
        }
    }
}

/// Rotating by an exponent reduced modulo 2N is rotating by the exponent itself.
proof fn lemma_monomial_reduce(p: Seq<u64>, e: int)
    requires
        e >= 0,
    ensures
        poly_monomial(p, e % (2 * N as int)) == poly_monomial(p, e),
{
    vstd::arithmetic::div_mod::lemma_mod_twice(e, 2 * N as int);
    assert(poly_monomial(p, e % (2 * N as int)) =~= poly_monomial(p, e));
}

/// Bootstraps the modulus-switched LWE ciphertext `c`: blind rotation of the trivially
/// encrypted lookup table, then sample extraction.
pub fn bootstrap(c: LweCiphertext, bsk: &BootstrappingKey) -> (r: LweCiphertext)
    requires
        c.wf(),
        bsk_wf(bsk@),
    ensures
        ({
            let acc = blind_rotate_spec(
                (poly_zero(), poly_monomial(lut_poly(), start_exponent(c.body))),
                c.mask@,
                bsk@,
                N as int,
            );
            &&& r.mask@ == extract_mask(acc.0)
            &&& r.body == acc.1[0]
        }),
{
    let lut = GlweCiphertext::trivial_encrypt_lut_poly();
    lut.blind_rotate(c, bsk).sample_extract()
}

impl Default for GlweCiphertext {
    fn default() -> (r: Self)
        ensures
            r.wf(),
            r@ == (poly_zero(), poly_zero()),
    {
        GlweCiphertext { mask: single(ResiduePoly::default()), body: ResiduePoly::default() }
    }
}

} // verus!
