//! Two-adic evaluation domains and the discrete Fourier transforms between
//! coefficient and evaluation form. A domain is a multiplicative coset
//! `shift * <generator>` of power-of-two order; interpolation re-evaluates
//! its result at every point, so its contract does not rest on any Fourier
//! identity.

use vstd::prelude::*;
use vstd::arithmetic::power2::{pow2, lemma_pow2_unfold, lemma_pow2_strictly_increases};
use crate::field::{
    is_fe, all_fe, addf, mulf, powf, fmul, fpow, fneg, P, GENERATOR, add_fe, mul_fe, pow_fe,
    try_inv_fe, lemma_repr_ops, lemma_repr_pow, lemma_fmul_assoc, lemma_fmul_comm,
    lemma_fpow_adds, lemma_fmul_noop, lemma_fe_range,
};

verus! {

/// Evaluation of a coefficient vector (constant term first) at `x`.
pub open spec fn eval_poly(coeffs: Seq<u64>, x: u64) -> u64
    decreases coeffs.len(),
{
    if coeffs.len() == 0 {
        0u64
    } else {
        addf(coeffs[0], mulf(x, eval_poly(coeffs.drop_first(), x)))
    }
}

/// Horner evaluation at run time.
pub fn eval_poly_at(coeffs: &Vec<u64>, x: u64) -> (r: u64)
    requires
        all_fe(coeffs@),
        is_fe(x),
    ensures
        r == eval_poly(coeffs@, x),
        is_fe(r),
{
    let mut acc: u64 = 0;
    let mut i: usize = coeffs.len();
    while i > 0
        invariant
            all_fe(coeffs@),
            is_fe(x),
            i <= coeffs@.len(),
            is_fe(acc),
            acc == eval_poly(coeffs@.skip(i as int), x),
        decreases i,
    {
        i -= 1;
        let m = mul_fe(x, acc);
        acc = add_fe(coeffs[i], m);
        proof {
            assert(coeffs@.skip(i as int).drop_first() =~= coeffs@.skip(i + 1));
            assert(coeffs@.skip(i as int)[0] == coeffs@[i as int]);
        }
    }
    proof {
        assert(coeffs@.skip(0) =~= coeffs@);
    }
    acc
}

/// The canonical generator of the order-`2^log_n` subgroup, as every domain
/// constructor derives it from the field's multiplicative generator.
pub open spec fn spec_two_adic_generator(log_n: usize) -> u64 {
    powf(powf(GENERATOR, 15), vstd::arithmetic::power2::pow2((27 - log_n) as nat))
}

/// A multiplicative coset of power-of-two order: the points
/// `shift * generator^i` for `i` below `2^log_n`.
#[derive(Clone, Copy)]
pub struct TwoAdicDomain {
    pub log_n: usize,
    pub generator: u64,
    pub shift: u64,
    pub shift_inv: u64,
    pub n_inv: u64,
}

impl TwoAdicDomain {
    /// The order of the domain.
    pub open spec fn spec_n(self) -> nat {
        pow2(self.log_n as nat)
    }

    /// The domain's defining algebra: the generator has order dividing
    /// `2^log_n` with `generator^(2^(log_n-1)) == -1`, and the stored
    /// inverses invert the shift and the order.
    pub open spec fn wf(self) -> bool {
        &&& self.log_n <= 27
        &&& is_fe(self.generator)
        &&& is_fe(self.shift)
        &&& is_fe(self.shift_inv)
        &&& is_fe(self.n_inv)
        &&& powf(self.generator, self.spec_n()) == 1
        &&& self.log_n >= 1 ==> powf(self.generator, pow2((self.log_n - 1) as nat)) == (P - 1)
        &&& mulf(self.shift, self.shift_inv) == 1
        &&& mulf(self.spec_n() as u64, self.n_inv) == 1
    }

    /// Point `i` of the domain.
    pub open spec fn point(self, i: int) -> u64 {
        mulf(self.shift, powf(self.generator, i as nat))
    }

    /// The order, at run time.
    pub fn size(&self) -> (n: usize)
        requires
            self.wf(),
        ensures
            n == self.spec_n(),
    {
        crate::merkle_tree::pow2_exec(self.log_n)
    }

    /// Point `i`, at run time.
    pub fn point_at(&self, i: usize) -> (x: u64)
        requires
            self.wf(),
        ensures
            x == self.point(i as int),
            is_fe(x),
    {
        let g = pow_fe(self.generator, i as u64);
        mul_fe(self.shift, g)
    }

    /// The inverse of point `i`: `shift_inv * generator^(n-i)`.
    pub open spec fn point_inv(self, i: int) -> u64 {
        mulf(self.shift_inv, powf(self.generator, (self.spec_n() - i) as nat))
    }

    /// The stored inverse of point `i` really inverts it.
    pub proof fn lemma_point_inv(self, i: int)
        requires
            self.wf(),
            0 <= i < self.spec_n(),
        ensures
            mulf(self.point(i), self.point_inv(i)) == 1,
            is_fe(self.point_inv(i)),
    {
        let s = self.shift as int;
        let si = self.shift_inv as int;
        let g = self.generator as int;
        let gi = fpow(g, i as nat);
        let gni = fpow(g, (self.spec_n() - i) as nat);
        lemma_fpow_adds(g, i as nat, (self.spec_n() - i) as nat);
        // (s * g^i) * (si * g^(n-i)) == (s * si) * (g^i * g^(n-i)) == 1.
        lemma_fe_range(s, gi);
        lemma_fe_range(si, gni);
        lemma_fmul_assoc(fmul(s, gi), si, gni);
        lemma_fmul_comm(fmul(s, gi), si);
        lemma_fmul_assoc(si, s, gi);
        lemma_fmul_assoc(fmul(si, s), gi, gni);
        lemma_fmul_comm(si, s);
        assert(fmul(fmul(s, gi), fmul(si, gni)) == fmul(fmul(s, si), fmul(gi, gni)));
        assert(fmul(gi, gni) == fpow(g, self.spec_n()));
        vstd::arithmetic::div_mod::lemma_small_mod(1nat, P as nat);
        assert(fmul(fmul(s, si), 1) == fmul(s, si) % (P as int)) by {
            lemma_fmul_noop(fmul(s, si), 1);
        }
        crate::field::lemma_repr_pow(self.generator, (self.spec_n() - i) as nat);
        lemma_fe_range(si, gni);
    }

    /// The inverse of point `i`, for `i` within the domain.
    pub fn point_inv_at(&self, i: usize) -> (x: u64)
        requires
            self.wf(),
            i < self.spec_n(),
        ensures
            is_fe(x),
            x == self.point_inv(i as int),
            mulf(self.point(i as int), x) == 1,
    {
        proof {
            lemma_pow2_strictly_increases(self.log_n as nat, 28);
            vstd::arithmetic::power2::lemma2_to64();
            self.lemma_point_inv(i as int);
        }
        let n = self.size();
        let gpow = pow_fe(self.generator, (n - i) as u64);
        let x = mul_fe(self.shift_inv, gpow);
        x
    }

    /// Within a domain of order `n`, the point at `i + n/2` is the negation
    /// of the point at `i`: the half-order power of the generator is `-1`.
    pub proof fn lemma_point_pair(self, i: int)
        requires
            self.wf(),
            self.log_n >= 1,
            0 <= i < self.spec_n() / 2,
        ensures
            self.point(i + self.spec_n() / 2) == fneg(self.point(i) as int),
    {
        let g = self.generator as int;
        let s = self.shift as int;
        let half = (self.spec_n() / 2) as nat;
        lemma_pow2_unfold(self.log_n as nat);
        assert(half == pow2((self.log_n - 1) as nat));
        lemma_fpow_adds(g, i as nat, half);
        let gi = fpow(g, i as nat);
        let gh = fpow(g, half);
        assert(gh == P - 1);
        // s * (g^i * (P-1)) == (s * g^i) * (P-1), and multiplying by P-1 is
        // negation modulo P.
        lemma_fe_range(g, gi);
        crate::field::lemma_fpow_range(g, i as nat);
        lemma_fmul_assoc(s, gi, (P - 1) as int);
        let x = fmul(s, gi);
        lemma_fe_range(s, gi);
        assert(fmul(x, (P - 1) as int) == fneg(x)) by {
            assert(x * (P - 1) == (P as int) * x + (0 - x)) by (nonlinear_arith);
            vstd::arithmetic::div_mod::lemma_mod_multiples_vanish(x, 0 - x, P as int);
        }
        assert(self.point(i + self.spec_n() / 2) == fmul(s, fpow(g, (i + half) as nat)));
    }
}

/// Halving the order squares the canonical generator.
pub proof fn lemma_two_adic_generator_square(l: usize)
    requires
        1 <= l <= 27,
    ensures
        spec_two_adic_generator((l - 1) as usize) == mulf(
            spec_two_adic_generator(l),
            spec_two_adic_generator(l),
        ),
{
    let base = powf(GENERATOR, 15);
    let e = vstd::arithmetic::power2::pow2((27 - l) as nat);
    vstd::arithmetic::power2::lemma_pow2_unfold((28 - l) as nat);
    assert(vstd::arithmetic::power2::pow2((28 - l) as nat) == 2 * e);
    lemma_fpow_adds(base as int, e, e);
    crate::field::lemma_fpow_range(base as int, e);
    crate::field::lemma_fpow_range(base as int, 2 * e);
}

/// The successor domain of a fold evaluates at the square: if `d2` has half
/// the order, the squared shift, and the canonical generator, then its
/// point `r` is the square of `d`'s point `r`.
pub proof fn lemma_point_square(d: TwoAdicDomain, d2: TwoAdicDomain, r: int)
    requires
        d.wf(),
        d2.wf(),
        1 <= d.log_n,
        d2.log_n == d.log_n - 1,
        d.generator == spec_two_adic_generator(d.log_n),
        d2.generator == spec_two_adic_generator(d2.log_n),
        d2.shift == mulf(d.shift, d.shift),
        0 <= r,
    ensures
        d2.point(r) == mulf(d.point(r), d.point(r)),
{
    let pp = P as int;
    let s = d.shift as int;
    let g = d.generator as int;
    let gr = fpow(g, r as nat);
    lemma_two_adic_generator_square(d.log_n);
    assert(d2.generator as int == fmul(g, g)) by {
        crate::field::lemma_repr_ops(d.generator, d.generator);
    }
    // The squared generator's power is the doubled power.
    crate::field::lemma_fpow_square(g, r as nat);
    lemma_fpow_adds(g, r as nat, r as nat);
    assert(fpow(fmul(g, g), r as nat) == fmul(gr, gr));
    // powf over the reduced base agrees: fpow(g2 % p ... d2.generator is
    // already canonical, so its int value is fmul(g, g).
    assert(d2.point(r) as int == fmul(fmul(s, s) % pp, fpow(fmul(g, g), r as nat))) by {
        crate::field::lemma_repr_ops(d.shift, d.shift);
        crate::field::lemma_repr_pow(d2.generator, r as nat);
        assert(d2.shift as int == fmul(s, s));
        assert(fpow(d2.generator as int, r as nat) == fpow(fmul(g, g), r as nat)) by {
            assert(d2.generator as int == fmul(g, g));
        }
    }
    crate::field::lemma_fmul_noop(s * s, fmul(gr, gr));
    // (s*s) * (gr*gr) == (s*gr) * (s*gr), then reduce both factors.
    crate::field::lemma_fpow_range(g, r as nat);
    assert((s * s) * (fmul(gr, gr)) % pp == ((s * s) * (gr * gr)) % pp) by {
        vstd::arithmetic::div_mod::lemma_mul_mod_noop_right(s * s, gr * gr, pp);
    }
    assert((s * s) * (gr * gr) == (s * gr) * (s * gr)) by (nonlinear_arith);
    assert(d.point(r) as int == fmul(s, gr)) by {
        crate::field::lemma_repr_pow(d.generator, r as nat);
    }
    assert(mulf(d.point(r), d.point(r)) as int == ((s * gr) * (s * gr)) % pp) by {
        crate::field::lemma_fe_range(s, gr);
        vstd::arithmetic::div_mod::lemma_mul_mod_noop_general(s * gr, s * gr, pp);
    }
    assert(d2.point(r) as int == ((s * s) * (gr * gr)) % pp) by {
        assert(fmul(fmul(s, s) % pp, fmul(gr, gr)) == fmul(fmul(s, s), fmul(gr, gr))) by {
            crate::field::lemma_fmul_noop(fmul(s, s), fmul(gr, gr));
        }
        assert(fmul(fmul(s, s), fmul(gr, gr)) == ((s * s) * (gr * gr)) % pp) by {
            vstd::arithmetic::div_mod::lemma_mul_mod_noop_general(s * s, gr * gr, pp);
        }
    }
}

/// Whether the domain constructor's run-time checks pass: the logarithm is
/// within the field's two-adicity, the derived generator has the right
/// order, and the shift and order have checked Fermat inverses. For an
/// admissible `log_n` and a nonzero shift every arithmetic condition here is
/// a consequence of Fermat's little theorem, which this development does not
/// prove; the run-time checks carry it.
pub open spec fn spec_domain_constructible(log_n: usize, shift: u64) -> bool {
    let g = spec_two_adic_generator(log_n);
    &&& log_n <= 27
    &&& powf(g, vstd::arithmetic::power2::pow2(log_n as nat)) == 1
    &&& (log_n >= 1 ==> powf(g, vstd::arithmetic::power2::pow2((log_n - 1) as nat)) == (P - 1))
    &&& crate::field::invertible_f(shift)
    &&& crate::field::invertible_f(vstd::arithmetic::power2::pow2(log_n as nat) as u64)
}

/// A domain of order `2^log_n` shifted by `shift`: the generator is derived
/// from the field's two-adic structure and every defining identity is
/// checked before the domain is returned, so `None` can arise only from an
/// inadmissible `log_n` or a failed run-time check.
pub fn coset_domain(log_n: usize, shift: u64) -> (r: Option<TwoAdicDomain>)
    requires
        is_fe(shift),
    ensures
        match r {
            Some(d) => {
                &&& d.wf()
                &&& d.log_n == log_n
                &&& d.shift == shift
                &&& d.generator == spec_two_adic_generator(log_n)
                &&& d.shift_inv == powf(shift, (P - 2) as nat)
                &&& d.n_inv == powf(
                    vstd::arithmetic::power2::pow2(log_n as nat) as u64,
                    (P - 2) as nat,
                )
            },
            None => true,
        },
        r is None <==> !spec_domain_constructible(log_n, shift),
{
    if log_n > 27 {
        return None;
    }
    proof {
        vstd::arithmetic::power2::lemma2_to64();
        lemma_pow2_strictly_increases(log_n as nat, 28);
        if log_n >= 1 {
            lemma_pow2_strictly_increases((log_n - 1) as nat, 28);
        }
    }
    let n = crate::merkle_tree::pow2_exec(log_n);
    // The exponent 15 * 2^(27 - log_n) carries the generator of the full
    // order-2^27 subgroup down to order 2^log_n.
    let e = crate::merkle_tree::pow2_exec(27 - log_n);
    let base = pow_fe(GENERATOR, 15);
    let g = pow_fe(base, e as u64);
    // Check the defining identities at run time.
    if pow_fe(g, n as u64) != 1 {
        return None;
    }
    if log_n >= 1 {
        let half = crate::merkle_tree::pow2_exec(log_n - 1);
        if pow_fe(g, half as u64) != P - 1 {
            return None;
        }
    }
    let shift_inv = match try_inv_fe(shift) {
        Some(v) => v,
        None => {
            return None;
        },
    };
    let n_inv = match try_inv_fe(n as u64) {
        Some(v) => v,
        None => {
            return None;
        },
    };
    Some(TwoAdicDomain { log_n, generator: g, shift, shift_inv, n_inv })
}

/// The domain the trace itself lives on: shift one.
pub fn natural_domain(log_n: usize) -> (r: Option<TwoAdicDomain>)
    ensures
        match r {
            Some(d) => {
                &&& d.wf()
                &&& d.log_n == log_n
                &&& d.shift == 1
                &&& d.generator == spec_two_adic_generator(log_n)
            },
            None => true,
        },
        r is None <==> !spec_domain_constructible(log_n, 1),
{
    coset_domain(log_n, 1)
}

/// Evaluates a coefficient vector on every point of a domain.
pub fn evaluate_on(coeffs: &Vec<u64>, d: &TwoAdicDomain) -> (out: Vec<u64>)
    requires
        all_fe(coeffs@),
        d.wf(),
    ensures
        out@.len() == d.spec_n(),
        all_fe(out@),
        forall|i: int| 0 <= i < out@.len() ==> out@[i] == eval_poly(coeffs@, d.point(i)),
{
    let n = d.size();
    let mut out: Vec<u64> = Vec::new();
    let mut i: usize = 0;
    while i < n
        invariant
            all_fe(coeffs@),
            d.wf(),
            n == d.spec_n(),
            i <= n,
            out@.len() == i,
            all_fe(out@),
            forall|ii: int| 0 <= ii < i ==> out@[ii] == eval_poly(coeffs@, d.point(ii)),
        decreases n - i,
    {
        let x = d.point_at(i);
        out.push(eval_poly_at(coeffs, x));
        i += 1;
    }
    out
}

/// The weighted power sum over the first `k` entries:
/// `sum_i v[i] * base^i`.
pub open spec fn dot_pows(v: Seq<u64>, base: u64, k: int) -> u64
    decreases k,
{
    if k <= 0 {
        0u64
    } else {
        addf(dot_pows(v, base, k - 1), mulf(v[k - 1], powf(base, (k - 1) as nat)))
    }
}

/// The inverse-transform candidate: coefficient `j` is
/// `shift^(-j) * n^(-1) * sum_i v[i] * g^(-ij)`, with `g^(-1)` taken as
/// `g^(n-1)`.
pub open spec fn spec_idft(v: Seq<u64>, d: TwoAdicDomain) -> Seq<u64> {
    Seq::new(
        d.spec_n(),
        |j: int|
            mulf(
                mulf(
                    dot_pows(
                        v,
                        powf(powf(d.generator, (d.spec_n() - 1) as nat), j as nat),
                        v.len() as int,
                    ),
                    d.n_inv,
                ),
                powf(d.shift_inv, j as nat),
            ),
    )
}

/// Interpolates values given on a domain: returns exactly the
/// inverse-transform candidate `spec_idft`, after re-evaluating it at every
/// domain point; `None` exactly when the candidate fails some point, which
/// for a well-formed domain would refute the Fourier inversion identity that
/// this development does not prove.
pub fn interpolate(values: &Vec<u64>, d: &TwoAdicDomain) -> (r: Option<Vec<u64>>)
    requires
        all_fe(values@),
        d.wf(),
        values@.len() == d.spec_n(),
    ensures
        match r {
            Some(c) => {
                &&& c@ == spec_idft(values@, *d)
                &&& c@.len() == d.spec_n()
                &&& all_fe(c@)
                &&& forall|i: int|
                    0 <= i < values@.len() ==> eval_poly(c@, d.point(i)) == values@[i]
            },
            None => true,
        },
        r is Some <==> (forall|i: int|
            0 <= i < values@.len() ==> #[trigger] eval_poly(spec_idft(values@, *d), d.point(i))
                == values@[i]),
{
    let n = d.size();
    proof {
        vstd::arithmetic::power2::lemma_pow2_pos(d.log_n as nat);
    }
    // Inverse transform: c_j = shift^(-j) * n^(-1) * sum_i v_i * g^(-ij).
    let g_inv = pow_fe(d.generator, (n - 1) as u64);
    let mut coeffs: Vec<u64> = Vec::new();
    let mut j: usize = 0;
    let mut s_inv_pow: u64 = 1;
    proof {
        assert(powf(d.shift_inv, 0) == 1u64);
    }
    while j < n
        invariant
            all_fe(values@),
            d.wf(),
            n == d.spec_n(),
            values@.len() == n,
            is_fe(g_inv),
            g_inv == powf(d.generator, (d.spec_n() - 1) as nat),
            is_fe(s_inv_pow),
            s_inv_pow == powf(d.shift_inv, j as nat),
            j <= n,
            coeffs@.len() == j,
            all_fe(coeffs@),
            forall|jj: int| 0 <= jj < j ==> #[trigger] coeffs@[jj] == spec_idft(values@, *d)[jj],
        decreases n - j,
    {
        let w = pow_fe(g_inv, j as u64);
        let mut acc: u64 = 0;
        let mut i: usize = 0;
        let mut wi: u64 = 1;
        proof {
            assert(powf(w, 0) == 1u64);
        }
        while i < n
            invariant
                all_fe(values@),
                values@.len() == n,
                is_fe(w),
                is_fe(acc),
                is_fe(wi),
                wi == powf(w, i as nat),
                acc == dot_pows(values@, w, i as int),
                i <= n,
            decreases n - i,
        {
            acc = add_fe(acc, mul_fe(values[i], wi));
            wi = mul_fe(wi, w);
            proof {
                // The incremental power agrees with the spec power.
                crate::field::lemma_repr_pow(w, i as nat);
                lemma_fmul_comm(fpow(w as int, i as nat), w as int);
            }
            i += 1;
        }
        acc = mul_fe(acc, d.n_inv);
        acc = mul_fe(acc, s_inv_pow);
        s_inv_pow = mul_fe(s_inv_pow, d.shift_inv);
        proof {
            crate::field::lemma_repr_pow(d.shift_inv, j as nat);
            lemma_fmul_comm(fpow(d.shift_inv as int, j as nat), d.shift_inv as int);
        }
        coeffs.push(acc);
        proof {
            assert(coeffs@[j as int] == spec_idft(values@, *d)[j as int]);
        }
        j += 1;
    }
    proof {
        assert(coeffs@ =~= spec_idft(values@, *d));
    }
    // Re-evaluate: only a vector that interpolates is returned.
    let mut i: usize = 0;
    while i < n
        invariant
            all_fe(values@),
            all_fe(coeffs@),
            d.wf(),
            n == d.spec_n(),
            values@.len() == n,
            coeffs@.len() == n,
            coeffs@ == spec_idft(values@, *d),
            i <= n,
            forall|ii: int| 0 <= ii < i ==> eval_poly(coeffs@, d.point(ii)) == values@[ii],
        decreases n - i,
    {
        let x = d.point_at(i);
        if eval_poly_at(&coeffs, x) != values[i] {
            proof {
                assert(eval_poly(spec_idft(values@, *d), d.point(i as int)) != values@[i as int]);
            }
            return None;
        }
        i += 1;
    }
    Some(coeffs)
}

} // verus!
