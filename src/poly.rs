//! The ring Z_{2^64}[X]/(X^N + 1).
use crate::arith::{
    lemma_wrap_add, lemma_wrap_eq_add, lemma_wrap_mul, lemma_wrap_sub, lemma_wrapping_add,
    lemma_wrapping_mul, lemma_wrapping_sub, wrap,
};
use crate::rng::{random_bit, random_u64};
use crate::N;
use vstd::prelude::*;

verus! {

/// An element of Z_{q}[X]/(X^N + 1) with implicit q = 2^64, by its coefficients,
/// lowest degree first.
#[derive(Clone)]
pub struct ResiduePoly {
    pub coefs: Vec<u64>,
}

impl View for ResiduePoly {
    type V = Seq<u64>;

    open spec fn view(&self) -> Seq<u64> {
        self.coefs@
    }
}

/// Coefficient-wise sum modulo 2^64.
pub open spec fn poly_add(a: Seq<u64>, b: Seq<u64>) -> Seq<u64> {
    Seq::new(N as nat, |i: int| wrap(a[i] + b[i]))
}

/// Coefficient-wise difference modulo 2^64.
pub open spec fn poly_sub(a: Seq<u64>, b: Seq<u64>) -> Seq<u64> {
    Seq::new(N as nat, |i: int| wrap(a[i] - b[i]))
}

/// Adds `c` to the constant coefficient only.
pub open spec fn poly_add_constant(a: Seq<u64>, c: int) -> Seq<u64> {
    a.update(0, wrap(a[0] + c))
}

/// The zero polynomial.
pub open spec fn poly_zero() -> Seq<u64> {
    Seq::new(N as nat, |i: int| 0u64)
}

/// The contribution of `a[j]` to coefficient `i` of `a * b`: since X^N = -1, products
/// that reach degree N or more come back negated.
pub open spec fn nega_term(a: Seq<u64>, b: Seq<u64>, i: int, j: int) -> int {
    if j <= i {
        a[j] * b[i - j]
    } else {
        -(a[j] * b[N + i - j])
    }
}

/// The sum of the first `m` contributions to coefficient `i` of `a * b`, over the integers.
pub open spec fn nega_sum(a: Seq<u64>, b: Seq<u64>, i: int, m: int) -> int
    decreases m,
{
    if m <= 0 {
        0
    } else {
        nega_sum(a, b, i, m - 1) + nega_term(a, b, i, m - 1)
    }
}

/// The negacyclic product of `a` and `b` modulo 2^64.
pub open spec fn poly_mul(a: Seq<u64>, b: Seq<u64>) -> Seq<u64> {
    Seq::new(N as nat, |i: int| wrap(nega_sum(a, b, i, N as int)))
}

/// Coefficient `i` of X^e * a for an exponent `e` in [0, 2N): coefficients move up by
/// e mod N; those that pass degree N come back negated, and an exponent of N or more
/// negates once more.
pub open spec fn monomial_coef(a: Seq<u64>, e: int, i: int) -> u64 {
    let s = e % (N as int);
    if i < s {
        if e >= N {
            a[i + N - s]
        } else {
            wrap(-a[i + N - s])
        }
    } else if e >= N {
        wrap(-a[i - s])
    } else {
        a[i - s]
    }
}

/// X^e * a, with `e` taken modulo 2N since X^{2N} = 1.
pub open spec fn poly_monomial(a: Seq<u64>, e: int) -> Seq<u64> {
    Seq::new(N as nat, |i: int| monomial_coef(a, e % (2 * N as int), i))
}

/// One contribution to a product, with a factor replaced by a congruent one.
proof fn lemma_term_congruent(w: u64, v: int, y: int, c: int)
    requires
        w == wrap(v),
    ensures
        wrap(c + w * y) == wrap(c + v * y),
        wrap(c - w * y) == wrap(c - v * y),
{
    lemma_wrap_mul(v, y);
    lemma_wrap_eq_add(w * y, v * y, c);
}

/// Coefficient `i` of the product is additive in the first factor, modulo 2^64.
proof fn lemma_nega_sum_add(a1: Seq<u64>, a2: Seq<u64>, b: Seq<u64>, i: int, m: int)
    requires
        a1.len() == N,
        a2.len() == N,
        b.len() == N,
        0 <= i < N,
        0 <= m <= N,
    ensures
        wrap(nega_sum(poly_add(a1, a2), b, i, m)) == wrap(
            nega_sum(a1, b, i, m) + nega_sum(a2, b, i, m),
        ),
    decreases m,
{
    if m > 0 {
        let j = m - 1;
        lemma_nega_sum_add(a1, a2, b, i, j);
        let ss = nega_sum(poly_add(a1, a2), b, i, j);
        let s12 = nega_sum(a1, b, i, j) + nega_sum(a2, b, i, j);
        let t = nega_term(poly_add(a1, a2), b, i, j);
        lemma_wrap_eq_add(ss, s12, t);
        let y = if j <= i { b[i - j] as int } else { b[N + i - j] as int };
        let v = a1[j] + a2[j];
        lemma_term_congruent(poly_add(a1, a2)[j], v, y, s12);
        assert(v * y == a1[j] * y + a2[j] * y) by (nonlinear_arith)
            requires
                v == a1[j] + a2[j],
        ;
    }
}

/// Coefficient `i` of the product is subtractive in the first factor, modulo 2^64.
proof fn lemma_nega_sum_sub(a1: Seq<u64>, a2: Seq<u64>, b: Seq<u64>, i: int, m: int)
    requires
        a1.len() == N,
        a2.len() == N,
        b.len() == N,
        0 <= i < N,
        0 <= m <= N,
    ensures
        wrap(nega_sum(poly_sub(a1, a2), b, i, m)) == wrap(
            nega_sum(a1, b, i, m) - nega_sum(a2, b, i, m),
        ),
    decreases m,
{
    if m > 0 {
        let j = m - 1;
        lemma_nega_sum_sub(a1, a2, b, i, j);
        let ss = nega_sum(poly_sub(a1, a2), b, i, j);
        let s12 = nega_sum(a1, b, i, j) - nega_sum(a2, b, i, j);
        let t = nega_term(poly_sub(a1, a2), b, i, j);
        lemma_wrap_eq_add(ss, s12, t);
        let y = if j <= i { b[i - j] as int } else { b[N + i - j] as int };
        let v = a1[j] - a2[j];
        lemma_term_congruent(poly_sub(a1, a2)[j], v, y, s12);
        assert(v * y == a1[j] * y - a2[j] * y) by (nonlinear_arith)
            requires
                v == a1[j] - a2[j],
        ;
    }
}

/// (a1 + a2) * b = a1 * b + a2 * b.
pub proof fn lemma_mul_add_left(a1: Seq<u64>, a2: Seq<u64>, b: Seq<u64>)
    requires
        a1.len() == N,
        a2.len() == N,
        b.len() == N,
    ensures
        poly_mul(poly_add(a1, a2), b) == poly_add(poly_mul(a1, b), poly_mul(a2, b)),
{
    assert forall|i: int| 0 <= i < N implies #[trigger] poly_mul(poly_add(a1, a2), b)[i]
        == poly_add(poly_mul(a1, b), poly_mul(a2, b))[i] by {
        lemma_nega_sum_add(a1, a2, b, i, N as int);
        let s1 = nega_sum(a1, b, i, N as int);
        let s2 = nega_sum(a2, b, i, N as int);
        lemma_wrap_add(s1, s2);
        lemma_wrap_add(s2, wrap(s1) as int);
    }
    assert(poly_mul(poly_add(a1, a2), b) =~= poly_add(poly_mul(a1, b), poly_mul(a2, b)));
}

/// (a1 - a2) * b = a1 * b - a2 * b.
pub proof fn lemma_mul_sub_left(a1: Seq<u64>, a2: Seq<u64>, b: Seq<u64>)
    requires
        a1.len() == N,
        a2.len() == N,
        b.len() == N,
    ensures
        poly_mul(poly_sub(a1, a2), b) == poly_sub(poly_mul(a1, b), poly_mul(a2, b)),
{
    assert forall|i: int| 0 <= i < N implies #[trigger] poly_mul(poly_sub(a1, a2), b)[i]
        == poly_sub(poly_mul(a1, b), poly_mul(a2, b))[i] by {
        lemma_nega_sum_sub(a1, a2, b, i, N as int);
        let s1 = nega_sum(a1, b, i, N as int);
        let s2 = nega_sum(a2, b, i, N as int);
        lemma_wrap_sub(s1, s2);
        lemma_wrap_sub(s2, wrap(s1) as int);
    }
    assert(poly_mul(poly_sub(a1, a2), b) =~= poly_sub(poly_mul(a1, b), poly_mul(a2, b)));
}

/// The polynomial X^e for an exponent in [0, 2N): 1 at degree e, or -1 at degree e - N.
pub open spec fn monomial_poly(e: int) -> Seq<u64> {
    Seq::new(
        N as nat,
        |j: int|
            if j == e % (N as int) {
                if e < N {
                    1u64
                } else {
                    0xFFFF_FFFF_FFFF_FFFFu64
                }
            } else {
                0u64
            },
    )
}

/// A sum with a single non-zero contribution, at `js`, is that contribution.
proof fn lemma_nega_sum_single(a: Seq<u64>, b: Seq<u64>, i: int, m: int, js: int)
    requires
        0 <= m <= N,
        forall|j: int| 0 <= j < N && j != js ==> #[trigger] nega_term(a, b, i, j) == 0,
    ensures
        nega_sum(a, b, i, m) == if 0 <= js < m {
            nega_term(a, b, i, js)
        } else {
            0
        },
    decreases m,
{
    if m > 0 {
        lemma_nega_sum_single(a, b, i, m - 1, js);
        if m - 1 != js {
            assert(nega_term(a, b, i, m - 1) == 0);
        }
    }
}

/// Multiplying by a monomial agrees with the full product by that monomial, for every
/// exponent in [0, 2N).
pub proof fn lemma_monomial_agrees_with_mul(p: Seq<u64>, e: int)
    requires
        p.len() == N,
        0 <= e < 2 * N,
    ensures
        poly_monomial(p, e) == poly_mul(p, monomial_poly(e)),
{
    let n = N as int;
    let mono = monomial_poly(e);
    let s = e % n;
    let v: int = if e < n { 1 } else { 0xFFFF_FFFF_FFFF_FFFF };
    assert forall|i: int| 0 <= i < N implies #[trigger] poly_mul(p, mono)[i] == poly_monomial(
        p,
        e,
    )[i] by {
        let js = if i >= s { i - s } else { n + i - s };
        assert forall|j: int| 0 <= j < N && j != js implies #[trigger] nega_term(p, mono, i, j)
            == 0 by {
            if j <= i {
                assert(mono[i - j] == 0);
            } else {
                assert(mono[n + i - j] == 0);
            }
        }
        lemma_nega_sum_single(p, mono, i, n, js);
        vstd::arithmetic::div_mod::lemma_small_mod(e as nat, (2 * n) as nat);
        assert(e % (2 * n) == e);
        if i >= s {
            assert(mono[i - js] == v);
            if e < n {
                crate::arith::lemma_wrap_id(p[js]);
            } else {
                assert(p[js] * v == -p[js] + p[js] * 0x1_0000_0000_0000_0000) by (nonlinear_arith)
                    requires
                        v == 0xFFFF_FFFF_FFFF_FFFF,
                ;
                crate::arith::lemma_wrap_shift(-p[js], p[js] as int);
            }
        } else {
            assert(mono[n + i - js] == v);
            if e < n {
                assert(-(p[js] * v) == -p[js]);
            } else {
                assert(-(p[js] * v) == p[js] + (-p[js]) * 0x1_0000_0000_0000_0000)
                    by (nonlinear_arith)
                    requires
                        v == 0xFFFF_FFFF_FFFF_FFFF,
                ;
                crate::arith::lemma_wrap_shift(p[js] as int, -p[js]);
                crate::arith::lemma_wrap_id(p[js]);
            }
        }
    }
    assert(poly_mul(p, mono) =~= poly_monomial(p, e));
}

/// The coefficients of `b` in reverse order.
fn reversed(b: &Vec<u64>) -> (r: Vec<u64>)
    requires
        b@.len() == N,
    ensures
        r@.len() == N,
        forall|t: int| 0 <= t < N ==> #[trigger] r@[t] == b@[N - 1 - t],
{
    let mut r: Vec<u64> = Vec::with_capacity(N);
    let mut t: usize = 0;
    while t < N
        invariant
            t <= N,
            b@.len() == N,
            r@.len() == t,
            forall|u: int| 0 <= u < t ==> #[trigger] r@[u] == b@[N - 1 - u],
        decreases N - t,
    {
        r.push(b[N - 1 - t]);
        t += 1;
    }
    r
}

/// The N zero coefficients.
fn zero_coefs() -> (r: Vec<u64>)
    ensures
        r@ == poly_zero(),
{
    let mut coefs: Vec<u64> = Vec::with_capacity(N);
    let mut i: usize = 0;
    while i < N
        invariant
            i <= N,
            coefs@ == Seq::new(i as nat, |t: int| 0u64),
        decreases N - i,
    {
        coefs.push(0);
        i += 1;
    }
    coefs
}

impl ResiduePoly {
    /// A polynomial holds exactly N coefficients.
    pub open spec fn wf(&self) -> bool {
        self@.len() == N
    }

    /// The zero polynomial.
    pub fn new() -> (r: Self)
        ensures
            r.wf(),
            r@ == poly_zero(),
    {
        ResiduePoly { coefs: zero_coefs() }
    }

    /// A copy with the same coefficients.
    pub fn duplicate(&self) -> (r: Self)
        ensures
            r@ == self@,
    {
        let coefs = self.coefs.clone();
        assert(coefs@ =~= self@);
        ResiduePoly { coefs }
    }

    pub fn add(&self, rhs: &ResiduePoly) -> (r: Self)
        requires
            self.wf(),
            rhs.wf(),
        ensures
            r.wf(),
            r@ == poly_add(self@, rhs@),
    {
        let mut coefs: Vec<u64> = Vec::with_capacity(N);
        let mut i: usize = 0;
        while i < N
            invariant
                i <= N,
                self.wf(),
                rhs.wf(),
                coefs@ =~= poly_add(self@, rhs@).take(i as int),
            decreases N - i,
        {
            proof {
                lemma_wrapping_add(self@[i as int], rhs@[i as int]);
            }
            coefs.push(self.coefs[i].wrapping_add(rhs.coefs[i]));
            i += 1;
        }
        assert(coefs@ =~= poly_add(self@, rhs@));
        ResiduePoly { coefs }
    }

    pub fn add_assign(&mut self, rhs: &ResiduePoly)
        requires
            old(self).wf(),
            rhs.wf(),
        ensures
            final(self).wf(),
            final(self)@ == poly_add(old(self)@, rhs@),
    {
        let ghost a = self@;
        let mut i: usize = 0;
        while i < N
            invariant
                i <= N,
                self.wf(),
                rhs.wf(),
                a.len() == N,
                forall|t: int| 0 <= t < i ==> self@[t] == #[trigger] poly_add(a, rhs@)[t],
                forall|t: int| i <= t < N ==> self@[t] == a[t],
            decreases N - i,
        {
            proof {
                lemma_wrapping_add(self@[i as int], rhs@[i as int]);
            }
            let v = self.coefs[i].wrapping_add(rhs.coefs[i]);
            self.coefs.set(i, v);
            i += 1;
        }
        assert(self@ =~= poly_add(a, rhs@));
    }

    pub fn add_constant(&self, constant: u64) -> (r: Self)
        requires
            self.wf(),
        ensures
            r.wf(),
            r@ == poly_add_constant(self@, constant as int),
    {
        let mut res = self.duplicate();
        res.add_constant_assign(constant);
        res
    }

    pub fn add_constant_assign(&mut self, constant: u64)
        requires
            old(self).wf(),
        ensures
            final(self).wf(),
            final(self)@ == poly_add_constant(old(self)@, constant as int),
    {
        proof {
            lemma_wrapping_add(self@[0], constant);
        }
        let v = self.coefs[0].wrapping_add(constant);
        self.coefs.set(0, v);
    }

    pub fn sub(&self, rhs: &ResiduePoly) -> (r: Self)
        requires
            self.wf(),
            rhs.wf(),
        ensures
            r.wf(),
            r@ == poly_sub(self@, rhs@),
    {
        let mut coefs: Vec<u64> = Vec::with_capacity(N);
        let mut i: usize = 0;
        while i < N
            invariant
                i <= N,
                self.wf(),
                rhs.wf(),
                coefs@ =~= poly_sub(self@, rhs@).take(i as int),
            decreases N - i,
        {
            proof {
                lemma_wrapping_sub(self@[i as int], rhs@[i as int]);
            }
            coefs.push(self.coefs[i].wrapping_sub(rhs.coefs[i]));
            i += 1;
        }
        assert(coefs@ =~= poly_sub(self@, rhs@));
        ResiduePoly { coefs }
    }

    /// Schoolbook negacyclic multiplication.
    pub fn mul(&self, rhs: &ResiduePoly) -> (r: Self)
        requires
            self.wf(),
            rhs.wf(),
        ensures
            r.wf(),
            r@ == poly_mul(self@, rhs@),
    {
        let ghost a = self@;
        let ghost b = rhs@;
        let br = reversed(&rhs.coefs);
        let mut coefs: Vec<u64> = Vec::with_capacity(N);
        let mut i: usize = 0;
        while i < N
            invariant
                i <= N,
                self.wf(),
                rhs.wf(),
                a == self@,
                b == rhs@,
                br@.len() == N,
                forall|t: int| 0 <= t < N ==> #[trigger] br@[t] == b[N - 1 - t],
                coefs@ =~= poly_mul(a, b).take(i as int),
            decreases N - i,
        {
            let mut coef: u64 = 0;
            let mut j: usize = 0;
            while j < i + 1
                invariant
                    j <= i + 1,
                    i < N,
                    self.wf(),
                    rhs.wf(),
                    a == self@,
                    b == rhs@,
                    br@.len() == N,
                    forall|t: int| 0 <= t < N ==> #[trigger] br@[t] == b[N - 1 - t],
                    coef == wrap(nega_sum(a, b, i as int, j as int)),
                decreases i + 1 - j,
            {
                let x = self.coefs[j];
                let y = br[N - 1 - i + j];
                assert(y == b[i - j]);
                proof {
                    let s = nega_sum(a, b, i as int, j as int);
                    lemma_wrapping_mul(x, y);
                    lemma_wrapping_add(coef, x.wrapping_mul(y));
                    lemma_wrap_add(x * y, coef as int);
                    lemma_wrap_add(s, x * y);
                    assert(nega_sum(a, b, i as int, j + 1) == s + x * y);
                }
                coef = coef.wrapping_add(x.wrapping_mul(y));
                j += 1;
            }
            while j < N
                invariant
                    i + 1 <= j <= N,
                    i < N,
                    self.wf(),
                    rhs.wf(),
                    a == self@,
                    b == rhs@,
                    br@.len() == N,
                    forall|t: int| 0 <= t < N ==> #[trigger] br@[t] == b[N - 1 - t],
                    coef == wrap(nega_sum(a, b, i as int, j as int)),
                decreases N - j,
            {
                let x = self.coefs[j];
                let y = br[j - i - 1];
                assert(y == b[N + i - j]);
                proof {
                    let s = nega_sum(a, b, i as int, j as int);
                    lemma_wrapping_mul(x, y);
                    lemma_wrapping_sub(coef, x.wrapping_mul(y));
                    lemma_wrap_sub(x * y, coef as int);
                    lemma_wrap_sub(s, x * y);
                    assert(nega_sum(a, b, i as int, j + 1) == s - x * y);
                }
                coef = coef.wrapping_sub(x.wrapping_mul(y));
                j += 1;
            }
            coefs.push(coef);
            i += 1;
        }
        ResiduePoly { coefs }
    }

    /// A polynomial with coefficients drawn uniformly from [0, 2^64).
    pub fn get_random() -> (r: Self)
        ensures
            r.wf(),
    {
        let mut coefs: Vec<u64> = Vec::with_capacity(N);
        let mut i: usize = 0;
        while i < N
            invariant
                i <= N,
                coefs@.len() == i,
            decreases N - i,
        {
            coefs.push(random_u64());
            i += 1;
        }
        ResiduePoly { coefs }
    }

    /// A polynomial with coefficients drawn from {0, 1}.
    pub fn get_random_bin() -> (r: Self)
        ensures
            r.wf(),
            forall|i: int| 0 <= i < N ==> #[trigger] r@[i] <= 1,
    {
        let mut coefs: Vec<u64> = Vec::with_capacity(N);
        let mut i: usize = 0;
        while i < N
            invariant
                i <= N,
                coefs@.len() == i,
                forall|t: int| 0 <= t < i ==> #[trigger] coefs@[t] <= 1,
            decreases N - i,
        {
            coefs.push(random_bit());
            i += 1;
        }
        ResiduePoly { coefs }
    }

    /// Multiplies the polynomial by X^exponent; the exponent is taken modulo 2N.
    pub fn multiply_by_monomial(&self, exponent: usize) -> (r: Self)
        requires
            self.wf(),
        ensures
            r.wf(),
            r@ == poly_monomial(self@, exponent as int),
    {
        let e = exponent % (2 * N);
        let reverse = e >= N;
        let s = e % N;
        let mut rotated_coefs: Vec<u64> = Vec::with_capacity(N);
        let mut i: usize = 0;
        while i < N
            invariant
                i <= N,
                self.wf(),
                e == exponent as int % (2 * N as int),
                reverse == (e >= N),
                s == e % N,
                rotated_coefs@ =~= poly_monomial(self@, exponent as int).take(i as int),
            decreases N - i,
        {
            let v = if i < s {
                if reverse {
                    self.coefs[i + N - s]
                } else {
                    proof {
                        lemma_wrapping_sub(0, self@[i + N - s]);
                    }
                    0u64.wrapping_sub(self.coefs[i + N - s])
                }
            } else if reverse {
                proof {
                    lemma_wrapping_sub(0, self@[i - s]);
                }
                0u64.wrapping_sub(self.coefs[i - s])
            } else {
                self.coefs[i - s]
            };
            rotated_coefs.push(v);
            i += 1;
        }
        ResiduePoly { coefs: rotated_coefs }
    }
}

impl Default for ResiduePoly {
    fn default() -> (r: Self)
        ensures
            r@ == poly_zero(),
    {
        ResiduePoly { coefs: zero_coefs() }
    }
}

} // verus!
