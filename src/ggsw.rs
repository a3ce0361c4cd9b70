//! GGSW ciphertexts, the gadget decomposition, the external product and CMUX.
use crate::arith::{lemma_wrap_add, wrap};
use crate::glwe::{glwe_add, glwe_encrypts, glwe_phase, glwe_sub, GlweCiphertext, SecretKey};
use crate::lwe::LweSecretKey;
use crate::poly::{poly_add, poly_add_constant, poly_mul, poly_zero, ResiduePoly};
use crate::{k, ELL, N};
use vstd::prelude::*;

verus! {

/// One GGSW encryption per LWE key bit.
pub type BootstrappingKey = Vec<GgswCiphertext>;

/// (k + 1) * ELL GLWE ciphertexts: Z + msg * G^t.
#[derive(Clone)]
pub struct GgswCiphertext {
    z_m_gt: Vec<GlweCiphertext>,
}

/// A GGSW ciphertext as its rows, each a GLWE ciphertext (mask, body).
impl View for GgswCiphertext {
    type V = Seq<(Seq<u64>, Seq<u64>)>;

    closed spec fn view(&self) -> Seq<(Seq<u64>, Seq<u64>)> {
        self.z_m_gt@.map_values(|g: GlweCiphertext| g@)
    }
}

/// The gadget value of `msg` for layer `j`: msg * q / B^{j+1}.
pub open spec fn gadget(msg: u8, j: int) -> u64 {
    (msg as u64) << ((56 - 8 * j) as u64)
}

/// Row `i` of a GGSW encryption of `msg` under `s` with noise `e`: an encryption of zero
/// to whose mask (first k * ELL rows) or body (last ELL rows) the gadget value of layer
/// i mod ELL was added.
pub open spec fn ggsw_row_encrypts(
    row: (Seq<u64>, Seq<u64>),
    s: Seq<u64>,
    msg: u8,
    i: int,
    e: int,
) -> bool {
    let g = gadget(msg, i % (ELL as int)) as int;
    if i < k * ELL {
        glwe_encrypts((poly_add_constant(row.0, -g), row.1), s, e)
    } else {
        glwe_encrypts((row.0, poly_add_constant(row.1, -g)), s, e)
    }
}

/// `g` is a GGSW encryption of `msg` under `s`, row `i` with noise `noise[i]`.
pub open spec fn ggsw_encrypts(g: GgswCiphertext, s: Seq<u64>, msg: u8, noise: Seq<i64>) -> bool {
    &&& g.wf()
    &&& forall|i: int|
        0 <= i < (k + 1) * ELL ==> ggsw_row_encrypts(#[trigger] g@[i], s, msg, i, noise[i] as int)
}

/// Coefficient-wise signed limbs of `p`, modulo 2^64: the high ones or the low ones.
pub open spec fn limb_poly(p: Seq<u64>, high: bool) -> Seq<u64> {
    Seq::new(
        N as nat,
        |i: int|
            if high {
                wrap(limb_hi(p[i]))
            } else {
                wrap(limb_lo(p[i]))
            },
    )
}

/// The decomposition of a GLWE ciphertext, one polynomial per gadget row: high limbs of
/// the mask, low limbs of the mask, high limbs of the body, low limbs of the body.
pub open spec fn g_inverse(ct: (Seq<u64>, Seq<u64>)) -> Seq<Seq<u64>> {
    seq![limb_poly(ct.0, true), limb_poly(ct.0, false), limb_poly(ct.1, true), limb_poly(ct.1, false)]
}

/// The sum over the first `m` rows of each decomposed polynomial times its GGSW row.
pub open spec fn ext_acc(
    rows: Seq<(Seq<u64>, Seq<u64>)>,
    g: Seq<Seq<u64>>,
    m: int,
) -> (Seq<u64>, Seq<u64>)
    decreases m,
{
    if m <= 0 {
        (poly_zero(), poly_zero())
    } else {
        let prev = ext_acc(rows, g, m - 1);
        (
            poly_add(prev.0, poly_mul(g[m - 1], rows[m - 1].0)),
            poly_add(prev.1, poly_mul(g[m - 1], rows[m - 1].1)),
        )
    }
}

/// The external product of the GGSW rows `rows` with the GLWE ciphertext `ct`.
pub open spec fn external_product_spec(
    rows: Seq<(Seq<u64>, Seq<u64>)>,
    ct: (Seq<u64>, Seq<u64>),
) -> (Seq<u64>, Seq<u64>) {
    ext_acc(rows, g_inverse(ct), ((k + 1) * ELL) as int)
}

/// ct1 + sel (x) (ct2 - ct1).
pub open spec fn cmux_spec(
    sel: Seq<(Seq<u64>, Seq<u64>)>,
    ct1: (Seq<u64>, Seq<u64>),
    ct2: (Seq<u64>, Seq<u64>),
) -> (Seq<u64>, Seq<u64>) {
    glwe_add(external_product_spec(sel, glwe_sub(ct2, ct1)), ct1)
}

/// The 16 most significant bits of `val`, rounded to nearest: a value in [0, 2^16].
pub open spec fn rounded_msb(val: u64) -> int {
    ((val >> 47u64) + ((val >> 47u64) & 1u64)) / 2
}

/// The signed byte whose bits are the low byte of `x`, in [-128, 128).
pub open spec fn signed_byte(x: int) -> int {
    let b = x % 256;
    if b >= 128 {
        b - 256
    } else {
        b
    }
}

/// The low signed limb of `val`: weight 2^48.
pub open spec fn limb_lo(val: u64) -> int {
    signed_byte(rounded_msb(val))
}

/// The high signed limb of `val`: weight 2^56. It takes a carry when the low limb is negative.
pub open spec fn limb_hi(val: u64) -> int {
    let r = rounded_msb(val);
    signed_byte(r / 256 + if r % 256 >= 128 { 1int } else { 0int })
}

/// The two signed limbs rebuild the rounded 16 most significant bits: low limb plus 256
/// times high limb equals them modulo 2^16, the high limb wrapping as a signed byte.
pub proof fn lemma_decomposition_round_trip(val: u64)
    ensures
        -128 <= limb_lo(val) < 128,
        -128 <= limb_hi(val) < 128,
        (limb_lo(val) + 256 * limb_hi(val)) % 0x10000 == rounded_msb(val) % 0x10000,
{
    let x = val >> 47u64;
    assert(x < 0x20000 && x & 1u64 <= 1) by (bit_vector)
        requires
            x == val >> 47u64,
    ;
    let r = rounded_msb(val);
    assert(0 <= r <= 0x10000);
    let c: int = if r % 256 >= 128 { 1 } else { 0 };
    let h = r / 256 + c;
    let c2: int = if h % 256 >= 128 { 1 } else { 0 };
    vstd::arithmetic::div_mod::lemma_fundamental_div_mod(r, 256);
    vstd::arithmetic::div_mod::lemma_fundamental_div_mod(h, 256);
    assert(limb_lo(val) == r % 256 - 256 * c);
    assert(limb_hi(val) == h % 256 - 256 * c2);
    let q = h / 256 + c2;
    assert(limb_lo(val) + 256 * limb_hi(val) == r - 0x10000 * q);
    vstd::arithmetic::div_mod::lemma_mod_multiples_vanish(-q, r, 0x10000);
}

/// Approximate decomposition with B = 256 and ell = 2.
/// Takes a polynomial coefficient in Z_{2^64} and decomposes its 16 most significant bits
/// in two signed 8-bit integers, low limb first.
pub fn decomposition(val: u64) -> (r: (i8, i8))
    ensures
        r.0 as int == limb_lo(val),
        r.1 as int == limb_hi(val),
{
    let shifted = val >> 47;
    assert(shifted < 0x20000 && shifted & 1u64 <= 1) by (bit_vector)
        requires
            shifted == val >> 47u64,
    ;
    let rounded_val = (shifted + (shifted & 1)) >> 1;
    let ghost sum: u64 = (shifted + (shifted & 1u64)) as u64;
    assert(sum >> 1u64 == sum / 2) by (bit_vector);
    assert(rounded_val <= 0x10000);
    let r = rounded_val;
    assert((r & 128u64 == 128u64) == (r % 256 >= 128)) by (bit_vector);
    assert(r >> 8u64 == r / 256) by (bit_vector);
    assert((r as i8) as int == signed_byte(r as int)) by (bit_vector)
        requires r <= 0x10000;
    if rounded_val & 128 == 128 {
        let h = (rounded_val >> 8) + 1;
        assert((h as i8) as int == signed_byte(h as int)) by (bit_vector)
            requires h <= 0x1000;
        (rounded_val as i8, h as i8)
    } else {
        let h = rounded_val >> 8;
        assert((h as i8) as int == signed_byte(h as int)) by (bit_vector)
            requires h <= 0x1000;
        (rounded_val as i8, h as i8)
    }
}

impl GgswCiphertext {
    /// (k + 1) * ELL well-formed rows.
    pub closed spec fn wf(&self) -> bool {
        &&& self.z_m_gt@.len() == (k + 1) * ELL
        &&& forall|i: int| 0 <= i < (k + 1) * ELL ==> (#[trigger] self.z_m_gt@[i]).wf()
    }

    /// The rows, in order.
    pub fn rows(&self) -> (r: &Vec<GlweCiphertext>)
        ensures
            r@.map_values(|g: GlweCiphertext| g@) == self@,
            self.wf() <==> (r@.len() == (k + 1) * ELL && forall|i: int|
                0 <= i < (k + 1) * ELL ==> (#[trigger] r@[i]).wf()),
    {
        &self.z_m_gt
    }

    /// The GGSW ciphertext with rows `rows`, provided there are (k + 1) * ELL of them,
    /// each well formed.
    pub fn from_rows(rows: Vec<GlweCiphertext>) -> (r: Option<Self>)
        ensures
            r.is_some() <==> (rows@.len() == (k + 1) * ELL && forall|i: int|
                0 <= i < rows@.len() ==> (#[trigger] rows@[i]).wf()),
            r.is_some() ==> r.unwrap().wf() && r.unwrap()@ == rows@.map_values(
                |g: GlweCiphertext| g@,
            ),
    {
        if rows.len() != (k + 1) * ELL {
            return None;
        }
        let mut i: usize = 0;
        while i < rows.len()
            invariant
                i <= rows@.len(),
                forall|t: int| 0 <= t < i ==> (#[trigger] rows@[t]).wf(),
            decreases rows@.len() - i,
        {
            if !rows[i].is_wf() {
                return None;
            }
            i += 1;
        }
        Some(GgswCiphertext { z_m_gt: rows })
    }

    /// Encrypts `msg` under `sk`; `noise` holds the noise of each of the (k + 1) * ELL
    /// GLWE encryptions of zero, in order.
    pub fn encrypt(msg: u8, sk: &SecretKey, noise: &Vec<i64>) -> (r: Self)
        requires
            sk.wf(),
            noise@.len() == (k + 1) * ELL,
        ensures
            ggsw_encrypts(r, sk.key(), msg, noise@),
    {
        // m * g, g being [q/B, ..., q/B^l]
        let mg0 = (msg as u64) << 56;
        let mg1 = (msg as u64) << 48;
        let mut z_m_gt: Vec<GlweCiphertext> = Vec::new();
        let mut i: usize = 0;
        while i < (k + 1) * ELL
            invariant
                i <= (k + 1) * ELL,
                sk.wf(),
                noise@.len() == (k + 1) * ELL,
                mg0 == gadget(msg, 0),
                mg1 == gadget(msg, 1),
                z_m_gt@.len() == i,
                forall|t: int| 0 <= t < i ==> (#[trigger] z_m_gt@[t]).wf(),
                forall|t: int|
                    0 <= t < i ==> ggsw_row_encrypts(
                        #[trigger] z_m_gt@[t]@,
                        sk.key(),
                        msg,
                        t,
                        noise@[t] as int,
                    ),
            decreases (k + 1) * ELL - i,
        {
            let z = GlweCiphertext::encrypt(0, sk, noise[i]);
            let mg = if i % ELL == 0 {
                mg0
            } else {
                mg1
            };
            let row = if i < k * ELL {
                let m = z.mask[0].add_constant(mg);
                proof {
                    lemma_add_constant_cancel(z@.0, mg);
                }
                GlweCiphertext { mask: crate::glwe::single(m), body: z.body }
            } else {
                let b = z.body.add_constant(mg);
                proof {
                    lemma_add_constant_cancel(z@.1, mg);
                }
                GlweCiphertext { mask: z.mask, body: b }
            };
            z_m_gt.push(row);
            i += 1;
        }
        let r = GgswCiphertext { z_m_gt };
        proof {
            assert forall|t: int| 0 <= t < (k + 1) * ELL implies ggsw_row_encrypts(
                #[trigger] r@[t],
                sk.key(),
                msg,
                t,
                noise@[t] as int,
            ) by {
                assert(r@[t] == r.z_m_gt@[t]@);
            }
        }
        r
    }

    /// Recovers the message from the last row, a pure-body encryption of msg * q / B^ell.
    pub fn decrypt(self, sk: &SecretKey) -> (r: u8)
        requires
            self.wf(),
            sk.wf(),
        ensures
            r as int == ((glwe_phase(self@[(k + 1) * ELL - 1], sk.key())[0] >> 47u64) + 1) / 2 % 16,
    {
        let last = &self.z_m_gt[(k + 1) * ELL - 1];
        let d = last.decrypt(sk);
        assert(self@[(k + 1) * ELL - 1] == last@);
        assert((d >> 47u64) < 0x20000) by (bit_vector);
        let t = (d >> 47) + 1;
        assert(t >> 1u64 == t / 2) by (bit_vector);
        ((t >> 1) % 16) as u8
    }

    /// Performs a product (GGSW x GLWE) -> GLWE: each decomposed polynomial of `ct` times
    /// its GGSW row, summed.
    pub fn external_product(&self, ct: &GlweCiphertext) -> (r: GlweCiphertext)
        requires
            self.wf(),
            ct.wf(),
        ensures
            r.wf(),
            r@ == external_product_spec(self@, ct@),
    {
        let g_inverse_ct = apply_g_inverse(ct);
        let mut mask = ResiduePoly::default();
        let mut body = ResiduePoly::default();
        let mut i: usize = 0;
        while i < (k + 1) * ELL
            invariant
                i <= (k + 1) * ELL,
                self.wf(),
                g_inverse_ct@.len() == (k + 1) * ELL,
                forall|t: int|
                    0 <= t < (k + 1) * ELL ==> (#[trigger] g_inverse_ct@[t]).wf()
                        && g_inverse_ct@[t]@ == g_inverse(ct@)[t],
                mask.wf(),
                body.wf(),
                (mask@, body@) == ext_acc(self@, g_inverse(ct@), i as int),
            decreases (k + 1) * ELL - i,
        {
            let row = &self.z_m_gt[i];
            assert(self@[i as int] == row@);
            mask.add_assign(&g_inverse_ct[i].mul(&row.mask[0]));
            body.add_assign(&g_inverse_ct[i].mul(&row.body));
            i += 1;
        }
        GlweCiphertext { mask: crate::glwe::single(mask), body }
    }
}

/// Adding a constant and then its opposite gives the polynomial back.
proof fn lemma_add_constant_cancel(p: Seq<u64>, c: u64)
    requires
        p.len() == N,
    ensures
        poly_add_constant(poly_add_constant(p, c as int), -(c as int)) == p,
{
    lemma_wrap_add(p[0] + c, -(c as int));
    crate::arith::lemma_wrap_id(p[0]);
    assert(poly_add_constant(poly_add_constant(p, c as int), -(c as int)) =~= p);
}

/// Decomposition of a GLWE ciphertext.
fn apply_g_inverse(ct: &GlweCiphertext) -> (r: Vec<ResiduePoly>)
    requires
        ct.wf(),
    ensures
        r@.len() == (k + 1) * ELL,
        forall|t: int|
            0 <= t < (k + 1) * ELL ==> (#[trigger] r@[t]).wf() && r@[t]@ == g_inverse(ct@)[t],
{
    let m = &ct.mask[0].coefs;
    let b = &ct.body.coefs;
    let mut mask_hi: Vec<u64> = Vec::with_capacity(N);
    let mut mask_lo: Vec<u64> = Vec::with_capacity(N);
    let mut body_hi: Vec<u64> = Vec::with_capacity(N);
    let mut body_lo: Vec<u64> = Vec::with_capacity(N);
    let mut i: usize = 0;
    while i < N
        invariant
            i <= N,
            m@ == ct@.0,
            b@ == ct@.1,
            m@.len() == N,
            b@.len() == N,
            mask_hi@ =~= limb_poly(ct@.0, true).take(i as int),
            mask_lo@ =~= limb_poly(ct@.0, false).take(i as int),
            body_hi@ =~= limb_poly(ct@.1, true).take(i as int),
            body_lo@ =~= limb_poly(ct@.1, false).take(i as int),
        decreases N - i,
    {
        // mask decomposition
        let (nu_2, nu_1) = decomposition(m[i]);
        proof {
            lemma_i8_as_u64(nu_1);
            lemma_i8_as_u64(nu_2);
        }
        mask_hi.push(nu_1 as u64);
        mask_lo.push(nu_2 as u64);
        // body decomposition
        let (nu_2, nu_1) = decomposition(b[i]);
        proof {
            lemma_i8_as_u64(nu_1);
            lemma_i8_as_u64(nu_2);
        }
        body_hi.push(nu_1 as u64);
        body_lo.push(nu_2 as u64);
        i += 1;
    }
    let mut res: Vec<ResiduePoly> = Vec::new();
    res.push(ResiduePoly { coefs: mask_hi });
    res.push(ResiduePoly { coefs: mask_lo });
    res.push(ResiduePoly { coefs: body_hi });
    res.push(ResiduePoly { coefs: body_lo });
    assert(limb_poly(ct@.0, true) =~= mask_hi@);
    assert(limb_poly(ct@.0, false) =~= mask_lo@);
    assert(limb_poly(ct@.1, true) =~= body_hi@);
    assert(limb_poly(ct@.1, false) =~= body_lo@);
    res
}

/// A signed limb, as the `u64` that `as` gives, is the limb modulo 2^64.
pub proof fn lemma_i8_as_u64(d: i8)
    ensures
        (#[verifier::truncate] (d as u64)) == wrap(d as int),
{
    assert((#[verifier::truncate] (d as u64)) as int == if d < 0 {
        d + 0x1_0000_0000_0000_0000
    } else {
        d as int
    }) by (bit_vector);
}

/// Ciphertext multiplexer: `ct1` if `ctb` encrypts 0, `ct2` if it encrypts 1,
/// computed as ct1 + ctb (x) (ct2 - ct1).
pub fn cmux(ctb: &GgswCiphertext, ct1: &GlweCiphertext, ct2: &GlweCiphertext) -> (r: GlweCiphertext)
    requires
        ctb.wf(),
        ct1.wf(),
        ct2.wf(),
    ensures
        r.wf(),
        r@ == cmux_spec(ctb@, ct1@, ct2@),
{
    let mut res = ct2.sub(ct1);
    res = ctb.external_product(&res);
    res = res.add(ct1);
    res
}

/// Encrypts the bits of `s` under `sk`, one GGSW ciphertext per bit; `noise` holds the
/// noise of the (k + 1) * ELL rows of each, in order.
pub fn compute_bsk(s: &LweSecretKey, sk: &SecretKey, noise: &Vec<i64>) -> (r: BootstrappingKey)
    requires
        s@.len() == N,
        forall|i: int| 0 <= i < N ==> #[trigger] s@[i] < 256,
        sk.wf(),
        noise@.len() == N * ((k + 1) * ELL),
    ensures
        r@.len() == N,
        forall|i: int|
            0 <= i < N ==> ggsw_encrypts(
                #[trigger] r@[i],
                sk.key(),
                s@[i] as u8,
                noise@.subrange(4 * i, 4 * i + 4),
            ),
{
    let mut bsk: Vec<GgswCiphertext> = Vec::new();
    let mut i: usize = 0;
    while i < N
        invariant
            i <= N,
            s@.len() == N,
            forall|t: int| 0 <= t < N ==> #[trigger] s@[t] < 256,
            sk.wf(),
            noise@.len() == N * ((k + 1) * ELL),
            bsk@.len() == i,
            forall|t: int|
                0 <= t < i ==> ggsw_encrypts(
                    #[trigger] bsk@[t],
                    sk.key(),
                    s@[t] as u8,
                    noise@.subrange(4 * t, 4 * t + 4),
                ),
        decreases N - i,
    {
        let mut row_noise: Vec<i64> = Vec::with_capacity(4);
        let mut j: usize = 0;
        while j < 4
            invariant
                i < N,
                j <= 4,
                noise@.len() == N * ((k + 1) * ELL),
                row_noise@ =~= noise@.subrange(4 * i, 4 * i + j),
            decreases 4 - j,
        {
            row_noise.push(noise[4 * i + j]);
            j += 1;
        }
        bsk.push(GgswCiphertext::encrypt(s[i] as u8, sk, &row_noise));
        i += 1;
    }
    bsk
}

} // verus!
