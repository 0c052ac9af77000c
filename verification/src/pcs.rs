//! The FRI-based polynomial commitment scheme: a batch of matrices is
//! committed by interpolating each column, evaluating it on a blown-up
//! coset (the low-degree extension), and putting the extended matrices under
//! one Merkle root. Out-of-domain openings are proved by running FRI on a
//! random linear combination of the quotients `(f(x) - f(z)) / (x - z)`.

use vstd::prelude::*;
use vstd::arithmetic::power2::{pow2, lemma_pow2_pos};
use crate::field::{
    is_fe, all_fe, addf, subf, mulf, inv_f, invertible_f, GENERATOR, P, add_fe, sub_fe, mul_fe,
    try_inv_fe,
};
use crate::matrix::{RowMajorMatrix, Dimensions};
use crate::merkle_tree::{MerkleTree, commit as mmcs_commit, verify_batch, pow2_exec};
use crate::symmetric::{digest_wf, DIGEST_WIDTH};
use crate::challenger::Challenger;
use crate::dft::{TwoAdicDomain, coset_domain, natural_domain, interpolate, evaluate_on, eval_poly, eval_poly_at};
use crate::fri::{
    FriConfig, FriProof, CommitPhaseOpening, commit_phase, grind, verify_query,
};

verus! {

/// Why a polynomial commitment or opening failed.
#[derive(Clone, Copy, PartialEq, Eq, Structural, Debug)]
pub enum PcsError {
    /// The batch or the claimed shapes are malformed.
    DimensionMismatch,
    /// The proof's counts or sizes do not match the configuration.
    InvalidProofShape,
    /// A Merkle batch opening failed to verify.
    MmcsFailure,
    /// A FRI fold replay disagreed with a committed round.
    FriFailure,
    /// The final polynomial is not the constant the folding owes.
    FinalPolyDegreeTooHigh,
    /// The grinding witness does not meet the difficulty.
    ProofOfWorkInvalid,
    /// An opening point fell onto the evaluation domain, so a quotient
    /// denominator was not invertible.
    ZetaInDomain,
}

/// The opening of one committed batch at one query index: the contributing
/// row of every matrix, and the Merkle path.
pub struct BatchOpening {
    pub opened_rows: Vec<Vec<u64>>,
    pub path: Vec<Vec<u64>>,
}

/// A polynomial-commitment opening proof: the FRI proof for the combined
/// quotient codeword, and, per query, the openings of every committed batch
/// at the queried index.
pub struct PcsProof {
    pub fri: FriProof,
    pub input_openings: Vec<Vec<BatchOpening>>,
}

/// The prover's retained data for one commitment: the column coefficient
/// vectors, the low-degree-extended matrices under their Merkle tree, and
/// the extension domain.
pub struct PcsProverData {
    pub coeffs: Vec<Vec<Vec<u64>>>,
    pub tree: MerkleTree,
    pub domain: TwoAdicDomain,
    pub trace_domain: TwoAdicDomain,
    pub log_h: usize,
}

impl PcsProverData {
    /// The retained data is internally bound: every column of every
    /// extended matrix is the evaluation of its stored coefficient vector
    /// over the extension domain.
    pub open spec fn wf(self) -> bool {
        &&& self.tree.wf()
        &&& self.domain.wf()
        &&& self.domain.generator == crate::dft::spec_two_adic_generator(self.domain.log_n)
        &&& self.trace_domain.wf()
        &&& self.trace_domain.log_n == self.log_h
        &&& self.trace_domain.shift == 1
        &&& self.trace_domain.generator == crate::dft::spec_two_adic_generator(self.log_h)
        &&& self.domain.log_n == self.tree.log_height
        &&& self.log_h <= self.domain.log_n
        &&& self.coeffs@.len() == self.tree.matrices@.len()
        &&& forall|m: int|
            0 <= m < self.coeffs@.len() ==> (#[trigger] self.coeffs@[m])@.len()
                == self.tree.matrices@[m].spec_width()
        &&& forall|m: int|
            0 <= m < self.coeffs@.len() ==> (#[trigger] self.tree.matrices@[m]).spec_height()
                == pow2(self.domain.log_n as nat)
        &&& forall|m: int, c: int|
            0 <= m < self.coeffs@.len() && 0 <= c < self.coeffs@[m]@.len() ==> all_fe(
                (#[trigger] self.coeffs@[m]@[c])@,
            ) && self.coeffs@[m]@[c]@.len() == pow2(self.log_h as nat)
        &&& forall|m: int, c: int, i: int|
            0 <= m < self.coeffs@.len() && 0 <= c < self.coeffs@[m]@.len() && 0 <= i < pow2(
                self.domain.log_n as nat,
            ) ==> #[trigger] self.tree.matrices@[m].spec_get(i, c) == eval_poly(
                self.coeffs@[m]@[c]@,
                self.domain.point(i),
            )
    }
}

/// One column of a matrix, as a vector.
fn extract_column(m: &RowMajorMatrix, c: usize) -> (col: Vec<u64>)
    requires
        m.wf(),
        c < m.spec_width(),
    ensures
        col@.len() == m.spec_height(),
        all_fe(col@),
        forall|r: int| 0 <= r < col@.len() ==> col@[r] == m.spec_get(r, c as int),
{
    let h = m.height();
    let mut col: Vec<u64> = Vec::new();
    let mut r: usize = 0;
    while r < h
        invariant
            m.wf(),
            c < m.spec_width(),
            h == m.spec_height(),
            r <= h,
            col@.len() == r,
            all_fe(col@),
            forall|rr: int| 0 <= rr < r ==> col@[rr] == m.spec_get(rr, c as int),
        decreases h - r,
    {
        col.push(m.get(r, c));
        r += 1;
    }
    col
}

/// Reassembles column vectors into a row-major matrix.
pub fn assemble_columns(cols: &Vec<Vec<u64>>, height: usize) -> (m: RowMajorMatrix)
    requires
        cols@.len() > 0,
        height > 0,
        cols@.len() * height <= usize::MAX,
        forall|c: int|
            0 <= c < cols@.len() ==> (#[trigger] cols@[c])@.len() == height && all_fe(cols@[c]@),
    ensures
        m.wf(),
        m.spec_width() == cols@.len(),
        m.spec_height() == height,
        forall|i: int, c: int|
            0 <= i < height && 0 <= c < cols@.len() ==> #[trigger] m.spec_get(i, c)
                == cols@[c]@[i],
{
    let w = cols.len();
    let mut vals: Vec<u64> = Vec::new();
    let mut i: usize = 0;
    while i < height
        invariant
            cols@.len() == w > 0,
            height > 0,
            w * height <= usize::MAX,
            forall|c: int|
                0 <= c < cols@.len() ==> (#[trigger] cols@[c])@.len() == height && all_fe(
                    cols@[c]@,
                ),
            i <= height,
            vals@.len() == i * w,
            all_fe(vals@),
            forall|ii: int, c: int|
                0 <= ii < i && 0 <= c < w ==> #[trigger] vals@[ii * w + c] == cols@[c]@[ii],
        decreases height - i,
    {
        let mut c: usize = 0;
        proof {
            vstd::arithmetic::mul::lemma_mul_inequality(i + 1, height as int, w as int);
            vstd::arithmetic::mul::lemma_mul_is_commutative(height as int, w as int);
        }
        while c < w
            invariant
                cols@.len() == w > 0,
                i < height,
                forall|cc: int|
                    0 <= cc < cols@.len() ==> (#[trigger] cols@[cc])@.len() == height && all_fe(
                        cols@[cc]@,
                    ),
                c <= w,
                (i + 1) * w <= usize::MAX,
                vals@.len() == i * w + c,
                all_fe(vals@),
                forall|ii: int, cc: int|
                    0 <= ii < i && 0 <= cc < w ==> #[trigger] vals@[ii * w + cc] == cols@[cc]@[ii],
                forall|cc: int| 0 <= cc < c ==> #[trigger] vals@[i * w + cc] == cols@[cc]@[i as int],
            decreases w - c,
        {
            proof {
                vstd::arithmetic::mul::lemma_mul_is_distributive_add_other_way(
                    w as int,
                    i as int,
                    1,
                );
            }
            vals.push(cols[c][i]);
            proof {
                assert forall|ii: int, cc: int| 0 <= ii < i && 0 <= cc < w implies #[trigger] vals@[
                    ii * w + cc
                ] == cols@[cc]@[ii] by {
                    vstd::arithmetic::mul::lemma_mul_inequality(ii + 1, i as int, w as int);
                    vstd::arithmetic::mul::lemma_mul_is_distributive_add_other_way(w as int, ii, 1);
                    vstd::arithmetic::mul::lemma_mul_nonnegative(ii, w as int);
                }
            }
            c += 1;
        }
        proof {
            vstd::arithmetic::mul::lemma_mul_is_distributive_add_other_way(w as int, i as int, 1);
        }
        i += 1;
    }
    proof {
        vstd::arithmetic::mul::lemma_mul_is_commutative(height as int, w as int);
        vstd::arithmetic::mul::lemma_mul_strictly_positive(height as int, w as int);
    }
    let m = match RowMajorMatrix::new(vals, w) {
        Some(m) => m,
        None => {
            proof {
                vstd::arithmetic::div_mod::lemma_mod_multiples_basic(height as int, w as int);
                assert(false);
            }
            unreached()
        },
    };
    proof {
        assert(m.spec_height() == height) by {
            vstd::arithmetic::div_mod::lemma_div_multiples_vanish(height as int, w as int);
            vstd::arithmetic::mul::lemma_mul_is_commutative(height as int, w as int);
        }
    }
    m
}

/// Commits to a batch of equal-height matrices: each column is interpolated
/// over its natural domain and re-evaluated over a coset blown up by
/// `2^log_blowup`; the extended matrices go under one Merkle root. The
/// returned data binds every extended column to its coefficient vector, and
/// the coefficients interpolate the input columns.
pub fn pcs_commit(matrices: Vec<RowMajorMatrix>, log_blowup: usize) -> (r: Result<
    (Vec<u64>, PcsProverData),
    PcsError,
>)
    requires
        forall|j: int| 0 <= j < matrices@.len() ==> (#[trigger] matrices@[j]).wf(),
        1 <= log_blowup <= 4,
    ensures
        match r {
            Ok((c, pd)) => {
                &&& pd.wf()
                &&& c@ == pd.tree.spec_commitment()
                &&& digest_wf(c@)
                &&& pd.tree.matrices@.len() == matrices@.len()
                &&& pd.domain.log_n == pd.log_h + log_blowup
                &&& pd.domain.shift == GENERATOR
                &&& pd.domain.generator == crate::dft::spec_two_adic_generator(pd.domain.log_n)
                &&& pd.domain.shift_inv == crate::field::powf(GENERATOR, (P - 2) as nat)
                &&& pd.domain.n_inv == crate::field::powf(
                    pow2(pd.domain.log_n as nat) as u64,
                    (P - 2) as nat,
                )
                &&& forall|m: int|
                    0 <= m < matrices@.len() ==> (#[trigger] pd.coeffs@[m])@.len()
                        == matrices@[m].spec_width()
                &&& forall|m: int|
                    0 <= m < matrices@.len() ==> (#[trigger] matrices@[m]).spec_height() == pow2(
                        pd.log_h as nat,
                    )
                // The committed coefficients interpolate the input columns.
                &&& forall|m: int, c: int, i: int|
                    0 <= m < matrices@.len() && 0 <= c < matrices@[m].spec_width() && 0 <= i
                        < matrices@[m].spec_height() ==> eval_poly(
                        pd.coeffs@[m]@[c]@,
                        pd.trace_domain.point(i),
                    ) == #[trigger] matrices@[m].spec_get(i, c)
            },
            Err(e) => e == PcsError::DimensionMismatch,
        },
        matrices@.len() == 0 ==> r is Err,
{
    if matrices.len() == 0 {
        return Err(PcsError::DimensionMismatch);
    }
    let h0 = matrices[0].height();
    let log_h = match crate::merkle_tree::log2_exact(h0) {
        Some(l) => l,
        None => {
            return Err(PcsError::DimensionMismatch);
        },
    };
    if log_h > 23 {
        return Err(PcsError::DimensionMismatch);
    }
    let log_n = log_h + log_blowup;
    // The natural domain carries the interpolation; the blown-up coset
    // carries the committed evaluations.
    let trace_dom = match natural_domain(log_h) {
        Some(d) => d,
        None => {
            return Err(PcsError::DimensionMismatch);
        },
    };
    let lde_dom = match coset_domain(log_n, GENERATOR) {
        Some(d) => d,
        None => {
            return Err(PcsError::DimensionMismatch);
        },
    };
    let n = pow2_exec(log_n);
    let mut coeffs: Vec<Vec<Vec<u64>>> = Vec::new();
    let mut ldes: Vec<RowMajorMatrix> = Vec::new();
    let mut mi: usize = 0;
    while mi < matrices.len()
        invariant
            forall|j: int| 0 <= j < matrices@.len() ==> (#[trigger] matrices@[j]).wf(),
            matrices@.len() > 0,
            trace_dom.wf(),
            lde_dom.wf(),
            trace_dom.log_n == log_h,
            lde_dom.log_n == log_n,
            log_n == log_h + log_blowup,
            log_h <= 23,
            1 <= log_blowup <= 4,
            n == pow2(log_n as nat),
            mi <= matrices@.len(),
            coeffs@.len() == mi,
            ldes@.len() == mi,
            h0 == pow2(log_h as nat),
            forall|m: int|
                0 <= m < mi ==> (#[trigger] coeffs@[m])@.len() == matrices@[m].spec_width(),
            forall|m: int| 0 <= m < mi ==> (#[trigger] matrices@[m]).spec_height() == h0,
            forall|m: int|
                0 <= m < mi ==> (#[trigger] ldes@[m]).wf() && ldes@[m].spec_height() == pow2(
                    log_n as nat,
                ) && ldes@[m].spec_width() == matrices@[m].spec_width(),
            forall|m: int, c: int|
                0 <= m < mi && 0 <= c < coeffs@[m]@.len() ==> all_fe(
                    (#[trigger] coeffs@[m]@[c])@,
                ) && coeffs@[m]@[c]@.len() == pow2(log_h as nat),
            forall|m: int, c: int, i: int|
                0 <= m < mi && 0 <= c < coeffs@[m]@.len() && 0 <= i < pow2(log_n as nat)
                    ==> #[trigger] ldes@[m].spec_get(i, c) == eval_poly(
                    coeffs@[m]@[c]@,
                    lde_dom.point(i),
                ),
            forall|m: int, c: int, i: int|
                0 <= m < mi && 0 <= c < coeffs@[m]@.len() && 0 <= i < pow2(log_h as nat)
                    ==> eval_poly(coeffs@[m]@[c]@, trace_dom.point(i))
                    == #[trigger] matrices@[m].spec_get(i, c),
        decreases matrices@.len() - mi,
    {
        let mat = &matrices[mi];
        if mat.height() != h0 {
            return Err(PcsError::DimensionMismatch);
        }
        let w = mat.width();
        proof {
            lemma_pow2_pos(log_n as nat);
        }
        if w == 0 || w > usize::MAX / n {
            return Err(PcsError::DimensionMismatch);
        }
        proof {
            lemma_pow2_pos(log_n as nat);
            vstd::arithmetic::mul::lemma_mul_inequality(
                w as int,
                (usize::MAX as int) / (n as int),
                n as int,
            );
            vstd::arithmetic::div_mod::lemma_fundamental_div_mod(usize::MAX as int, n as int);
            vstd::arithmetic::mul::lemma_mul_is_commutative(
                (usize::MAX as int) / (n as int),
                n as int,
            );
        }
        let mut mat_coeffs: Vec<Vec<u64>> = Vec::new();
        let mut lde_cols: Vec<Vec<u64>> = Vec::new();
        let mut c: usize = 0;
        while c < w
            invariant
                mat.wf(),
                mat == matrices@[mi as int],
                mi < matrices@.len(),
                trace_dom.wf(),
                lde_dom.wf(),
                trace_dom.log_n == log_h,
                lde_dom.log_n == log_n,
                w == mat.spec_width(),
                mat.spec_height() == h0,
                h0 == pow2(log_h as nat),
                c <= w,
                mat_coeffs@.len() == c,
                lde_cols@.len() == c,
                forall|cc: int|
                    0 <= cc < c ==> all_fe((#[trigger] mat_coeffs@[cc])@)
                        && mat_coeffs@[cc]@.len() == pow2(log_h as nat),
                forall|cc: int|
                    0 <= cc < c ==> (#[trigger] lde_cols@[cc])@.len() == pow2(log_n as nat)
                        && all_fe(lde_cols@[cc]@),
                forall|cc: int, i: int|
                    0 <= cc < c && 0 <= i < pow2(log_n as nat) ==> #[trigger] lde_cols@[cc]@[i]
                        == eval_poly(mat_coeffs@[cc]@, lde_dom.point(i)),
                forall|cc: int, i: int|
                    0 <= cc < c && 0 <= i < pow2(log_h as nat) ==> eval_poly(
                        mat_coeffs@[cc]@,
                        trace_dom.point(i),
                    ) == #[trigger] mat.spec_get(i, cc),
            decreases w - c,
        {
            let col = extract_column(mat, c);
            let cf = match interpolate(&col, &trace_dom) {
                Some(cf) => cf,
                None => {
                    return Err(PcsError::DimensionMismatch);
                },
            };
            let lde_col = evaluate_on(&cf, &lde_dom);
            mat_coeffs.push(cf);
            lde_cols.push(lde_col);
            c += 1;
        }
        let lde = assemble_columns(&lde_cols, n);
        coeffs.push(mat_coeffs);
        ldes.push(lde);
        mi += 1;
    }
    let (com, tree) = match mmcs_commit(ldes) {
        Ok(p) => p,
        Err(_) => {
            return Err(PcsError::DimensionMismatch);
        },
    };
    if tree.log_height != log_n {
        return Err(PcsError::DimensionMismatch);
    }
    let pd = PcsProverData { coeffs, tree, domain: lde_dom, trace_domain: trace_dom, log_h };
    proof {
        assert(pd.wf());
    }
    Ok((com, pd))
}
/// The running state of the quotient combination: the accumulated sum and
/// the current power of `alpha`.
///
/// `rlc_cols` absorbs the columns of one opened row against one opening
/// point; `rlc_points` runs it over every opening point of one matrix;
/// `rlc_mats` over every matrix of one batch; `rlc_batches` over every
/// batch. The order (batch, matrix, point, column) fixes which power of
/// `alpha` weighs each term, and the prover and the verifier share it.
pub open spec fn rlc_cols(
    row: Seq<u64>,
    ys: Seq<u64>,
    inv_den: u64,
    alpha: u64,
    st: (u64, u64),
    k: int,
) -> (u64, u64)
    decreases k,
{
    if k <= 0 {
        st
    } else {
        let s = rlc_cols(row, ys, inv_den, alpha, st, k - 1);
        (addf(s.0, mulf(s.1, mulf(subf(row[k - 1], ys[k - 1]), inv_den))), mulf(s.1, alpha))
    }
}

/// The combination state after the first `k` opening points of one matrix.
pub open spec fn rlc_points(
    row: Seq<u64>,
    ys_p: Seq<Seq<u64>>,
    zs: Seq<u64>,
    alpha: u64,
    x: u64,
    st: (u64, u64),
    k: int,
) -> (u64, u64)
    decreases k,
{
    if k <= 0 {
        st
    } else {
        let s = rlc_points(row, ys_p, zs, alpha, x, st, k - 1);
        rlc_cols(row, ys_p[k - 1], inv_f(subf(x, zs[k - 1])), alpha, s, row.len() as int)
    }
}

/// The combination state after the first `k` matrices of one batch.
pub open spec fn rlc_mats(
    rows: Seq<Seq<u64>>,
    ys_m: Seq<Seq<Seq<u64>>>,
    zs: Seq<u64>,
    alpha: u64,
    x: u64,
    st: (u64, u64),
    k: int,
) -> (u64, u64)
    decreases k,
{
    if k <= 0 {
        st
    } else {
        let s = rlc_mats(rows, ys_m, zs, alpha, x, st, k - 1);
        rlc_points(rows[k - 1], ys_m[k - 1], zs, alpha, x, s, zs.len() as int)
    }
}

/// The combination state after the first `k` batches.
pub open spec fn rlc_batches(
    rows_b: Seq<Seq<Seq<u64>>>,
    ys_b: Seq<Seq<Seq<Seq<u64>>>>,
    points: Seq<Seq<u64>>,
    alpha: u64,
    x: u64,
    st: (u64, u64),
    k: int,
) -> (u64, u64)
    decreases k,
{
    if k <= 0 {
        st
    } else {
        let s = rlc_batches(rows_b, ys_b, points, alpha, x, st, k - 1);
        rlc_mats(rows_b[k - 1], ys_b[k - 1], points[k - 1], alpha, x, s, rows_b[k - 1].len() as int)
    }
}

/// The combined quotient value at one domain point `x`: over every batch,
/// matrix, opening point `z` and column, the term
/// `alpha^k * (row[c] - y) * (x - z)^(-1)`, in that fixed order.
pub open spec fn spec_reduced_opening(
    rows_b: Seq<Seq<Seq<u64>>>,
    ys_b: Seq<Seq<Seq<Seq<u64>>>>,
    points: Seq<Seq<u64>>,
    alpha: u64,
    x: u64,
) -> u64 {
    rlc_batches(rows_b, ys_b, points, alpha, x, (0u64, 1u64), rows_b.len() as int).0
}

/// Every quotient denominator `x - z` that the combination reaches has a
/// checked Fermat inverse. (A batch without matrices reaches none of its
/// points.)
pub open spec fn dens_ok(rows_b: Seq<Seq<Seq<u64>>>, points: Seq<Seq<u64>>, x: u64) -> bool {
    forall|i: int, p: int|
        0 <= i < points.len() && rows_b[i].len() > 0 && 0 <= p < points[i].len()
            ==> invertible_f(subf(x, #[trigger] points[i][p]))
}

/// The view of a batch's opened rows.
pub open spec fn rows_view(rows: Seq<Vec<Vec<u64>>>) -> Seq<Seq<Seq<u64>>> {
    rows.map_values(|r: Vec<Vec<u64>>| r@.map_values(|v: Vec<u64>| v@))
}

/// The view of the claimed opening values.
pub open spec fn values_view(values: Seq<Vec<Vec<Vec<u64>>>>) -> Seq<Seq<Seq<Seq<u64>>>> {
    values.map_values(
        |a: Vec<Vec<Vec<u64>>>|
            a@.map_values(|b: Vec<Vec<u64>>| b@.map_values(|v: Vec<u64>| v@)),
    )
}

/// The view of the opening points.
pub open spec fn points_view(points: Seq<Vec<u64>>) -> Seq<Seq<u64>> {
    points.map_values(|v: Vec<u64>| v@)
}

/// The random linear combination of quotient terms at one domain point `x`:
/// exactly `spec_reduced_opening` over the views of the arguments. Fails
/// with `ZetaInDomain` exactly when some reached denominator `x - z` has no
/// checked Fermat inverse (for `z != x` that would refute Fermat's little
/// theorem, but only the run-time check vouches for it here).
pub fn reduced_opening_at(
    rows: &Vec<Vec<Vec<u64>>>,
    points: &Vec<Vec<u64>>,
    values: &Vec<Vec<Vec<Vec<u64>>>>,
    alpha: u64,
    x: u64,
) -> (r: Result<u64, PcsError>)
    requires
        rows@.len() == points@.len(),
        rows@.len() == values@.len(),
        forall|i: int| 0 <= i < points@.len() ==> all_fe((#[trigger] points@[i])@),
        forall|i: int, m: int|
            0 <= i < rows@.len() && 0 <= m < rows@[i]@.len() ==> all_fe(
                (#[trigger] rows@[i]@[m])@,
            ),
        forall|i: int| 0 <= i < values@.len() ==> (#[trigger] values@[i])@.len() == rows@[i]@.len(),
        forall|i: int, m: int|
            0 <= i < values@.len() && 0 <= m < values@[i]@.len() ==> (
            #[trigger] values@[i]@[m])@.len() == points@[i]@.len(),
        forall|i: int, m: int, p: int|
            0 <= i < values@.len() && 0 <= m < values@[i]@.len() && 0 <= p
                < values@[i]@[m]@.len() ==> (#[trigger] values@[i]@[m]@[p])@.len()
                == rows@[i]@[m]@.len() && all_fe(values@[i]@[m]@[p]@),
        is_fe(alpha),
        is_fe(x),
    ensures
        r matches Ok(v) <==> dens_ok(rows_view(rows@), points_view(points@), x),
        r matches Ok(v) ==> v == spec_reduced_opening(
            rows_view(rows@),
            values_view(values@),
            points_view(points@),
            alpha,
            x,
        ) && is_fe(v),
        r is Err ==> r == Err::<u64, PcsError>(PcsError::ZetaInDomain),
{
    let ghost rbv = rows_view(rows@);
    let ghost ybv = values_view(values@);
    let ghost ptv = points_view(points@);
    let mut acc: u64 = 0;
    let mut apow: u64 = 1;
    let mut i: usize = 0;
    while i < rows.len()
        invariant
            rows@.len() == points@.len(),
            rows@.len() == values@.len(),
            forall|ii: int| 0 <= ii < points@.len() ==> all_fe((#[trigger] points@[ii])@),
            forall|ii: int, m: int|
                0 <= ii < rows@.len() && 0 <= m < rows@[ii]@.len() ==> all_fe(
                    (#[trigger] rows@[ii]@[m])@,
                ),
            forall|ii: int|
                0 <= ii < values@.len() ==> (#[trigger] values@[ii])@.len() == rows@[ii]@.len(),
            forall|ii: int, m: int|
                0 <= ii < values@.len() && 0 <= m < values@[ii]@.len() ==> (
                #[trigger] values@[ii]@[m])@.len() == points@[ii]@.len(),
            forall|ii: int, m: int, p: int|
                0 <= ii < values@.len() && 0 <= m < values@[ii]@.len() && 0 <= p
                    < values@[ii]@[m]@.len() ==> (#[trigger] values@[ii]@[m]@[p])@.len()
                    == rows@[ii]@[m]@.len() && all_fe(values@[ii]@[m]@[p]@),
            is_fe(alpha),
            is_fe(x),
            is_fe(acc),
            is_fe(apow),
            i <= rows@.len(),
            rbv == rows_view(rows@),
            ybv == values_view(values@),
            ptv == points_view(points@),
            (acc, apow) == rlc_batches(rbv, ybv, ptv, alpha, x, (0u64, 1u64), i as int),
            forall|ii: int, p: int|
                0 <= ii < i && rbv[ii].len() > 0 && 0 <= p < ptv[ii].len() ==> invertible_f(
                    subf(x, #[trigger] ptv[ii][p]),
                ),
        decreases rows@.len() - i,
    {
        let mats = &rows[i];
        let ghost st_batch = (acc, apow);
        let mut m: usize = 0;
        while m < mats.len()
            invariant
                0 <= i < rows@.len(),
                rows@.len() == points@.len(),
                rows@.len() == values@.len(),
                mats@ == rows@[i as int]@,
                forall|ii: int| 0 <= ii < points@.len() ==> all_fe((#[trigger] points@[ii])@),
                forall|ii: int, mm: int|
                    0 <= ii < rows@.len() && 0 <= mm < rows@[ii]@.len() ==> all_fe(
                        (#[trigger] rows@[ii]@[mm])@,
                    ),
                forall|ii: int|
                    0 <= ii < values@.len() ==> (#[trigger] values@[ii])@.len()
                        == rows@[ii]@.len(),
                forall|ii: int, mm: int|
                    0 <= ii < values@.len() && 0 <= mm < values@[ii]@.len() ==> (
                    #[trigger] values@[ii]@[mm])@.len() == points@[ii]@.len(),
                forall|ii: int, mm: int, p: int|
                    0 <= ii < values@.len() && 0 <= mm < values@[ii]@.len() && 0 <= p
                        < values@[ii]@[mm]@.len() ==> (#[trigger] values@[ii]@[mm]@[p])@.len()
                        == rows@[ii]@[mm]@.len() && all_fe(values@[ii]@[mm]@[p]@),
                is_fe(alpha),
                is_fe(x),
                is_fe(acc),
                is_fe(apow),
                m <= mats@.len(),
                rbv == rows_view(rows@),
                ybv == values_view(values@),
                ptv == points_view(points@),
                (acc, apow) == rlc_mats(rbv[i as int], ybv[i as int], ptv[i as int], alpha, x, st_batch, m as int),
                m > 0 ==> forall|p: int|
                    0 <= p < ptv[i as int].len() ==> invertible_f(
                        subf(x, #[trigger] ptv[i as int][p]),
                    ),
            decreases mats@.len() - m,
        {
            let row = &mats[m];
            let pts = &points[i];
            let ghost st_mat = (acc, apow);
            let mut p: usize = 0;
            while p < pts.len()
                invariant
                    0 <= i < rows@.len(),
                    0 <= m < rows@[i as int]@.len(),
                    rows@.len() == points@.len(),
                    rows@.len() == values@.len(),
                    values@[i as int]@.len() == rows@[i as int]@.len(),
                    values@[i as int]@[m as int]@.len() == points@[i as int]@.len(),
                    forall|pp: int|
                        0 <= pp < values@[i as int]@[m as int]@.len() ==> (
                        #[trigger] values@[i as int]@[m as int]@[pp])@.len() == rows@[i as int]@[
                            m as int
                        ]@.len() && all_fe(values@[i as int]@[m as int]@[pp]@),
                    row@ == rows@[i as int]@[m as int]@,
                    pts@ == points@[i as int]@,
                    all_fe(row@),
                    all_fe(pts@),
                    is_fe(alpha),
                    is_fe(x),
                    is_fe(acc),
                    is_fe(apow),
                    p <= pts@.len(),
                    rbv == rows_view(rows@),
                    ybv == values_view(values@),
                    ptv == points_view(points@),
                    (acc, apow) == rlc_points(
                        rbv[i as int][m as int],
                        ybv[i as int][m as int],
                        ptv[i as int],
                        alpha,
                        x,
                        st_mat,
                        p as int,
                    ),
                    forall|pp: int|
                        0 <= pp < p ==> invertible_f(subf(x, #[trigger] ptv[i as int][pp])),
                decreases pts@.len() - p,
            {
                let z = pts[p];
                let den = sub_fe(x, z);
                let inv_den = match try_inv_fe(den) {
                    Some(v) => v,
                    None => {
                        proof {
                            assert(ptv[i as int][p as int] == z);
                            assert(rbv[i as int].len() > 0);
                            assert(!dens_ok(rbv, ptv, x));
                        }
                        return Err(PcsError::ZetaInDomain);
                    },
                };
                proof {
                    assert(inv_den == inv_f(subf(x, ptv[i as int][p as int])));
                }
                let ys = &values[i][m][p];
                let ghost st_point = (acc, apow);
                let mut c: usize = 0;
                while c < row.len()
                    invariant
                        all_fe(row@),
                        ys@.len() == row@.len(),
                        all_fe(ys@),
                        is_fe(alpha),
                        is_fe(inv_den),
                        is_fe(acc),
                        is_fe(apow),
                        c <= row@.len(),
                        row@ == rows@[i as int]@[m as int]@,
                        0 <= i < rows@.len(),
                        0 <= m < rows@[i as int]@.len(),
                        0 <= p < points@[i as int]@.len(),
                        rbv == rows_view(rows@),
                        ybv == values_view(values@),
                        ys@ == ybv[i as int][m as int][p as int],
                        row@ == rbv[i as int][m as int],
                        (acc, apow) == rlc_cols(
                            rbv[i as int][m as int],
                            ybv[i as int][m as int][p as int],
                            inv_den,
                            alpha,
                            st_point,
                            c as int,
                        ),
                    decreases row@.len() - c,
                {
                    let num = sub_fe(row[c], ys[c]);
                    let term = mul_fe(num, inv_den);
                    acc = add_fe(acc, mul_fe(apow, term));
                    apow = mul_fe(apow, alpha);
                    c += 1;
                }
                proof {
                    assert(rlc_points(
                        rbv[i as int][m as int],
                        ybv[i as int][m as int],
                        ptv[i as int],
                        alpha,
                        x,
                        st_mat,
                        p + 1,
                    ) == rlc_cols(
                        rbv[i as int][m as int],
                        ybv[i as int][m as int][p as int],
                        inv_f(subf(x, ptv[i as int][p as int])),
                        alpha,
                        rlc_points(
                            rbv[i as int][m as int],
                            ybv[i as int][m as int],
                            ptv[i as int],
                            alpha,
                            x,
                            st_mat,
                            p as int,
                        ),
                        rbv[i as int][m as int].len() as int,
                    ));
                }
                p += 1;
            }
            proof {
                assert(ptv[i as int].len() == points@[i as int]@.len());
            }
            m += 1;
        }
        proof {
            if rbv[i as int].len() > 0 {
                assert(forall|p: int|
                    0 <= p < ptv[i as int].len() ==> invertible_f(
                        subf(x, #[trigger] ptv[i as int][p]),
                    ));
            }
        }
        i += 1;
    }
    proof {
        assert(dens_ok(rbv, ptv, x));
    }
    Ok(acc)
}
/// Opens every committed batch at its points: returns the claimed
/// evaluations, which are exactly the stored polynomials evaluated at the
/// points, and a FRI proof that binds them to the commitments through the
/// combined quotient codeword.
pub fn pcs_open(
    datas: &Vec<PcsProverData>,
    points: &Vec<Vec<u64>>,
    config: &FriConfig,
    ch: &mut Challenger,
) -> (r: Result<(Vec<Vec<Vec<Vec<u64>>>>, PcsProof), PcsError>)
    requires
        old(ch).wf(),
        config.wf(),
        datas@.len() >= 1,
        points@.len() == datas@.len(),
        forall|i: int| 0 <= i < datas@.len() ==> (#[trigger] datas@[i]).wf(),
        forall|i: int| 0 <= i < datas@.len() ==> (#[trigger] datas@[i]).domain == datas@[0].domain,
        forall|i: int| 0 <= i < points@.len() ==> all_fe((#[trigger] points@[i])@),
        datas@[0].domain.log_n == datas@[0].log_h + config.log_blowup,
        datas@[0].log_h >= 1,
    ensures
        final(ch).wf(),
        match r {
            Ok((values, proof)) => {
                &&& values@.len() == datas@.len()
                &&& forall|i: int|
                    0 <= i < datas@.len() ==> (#[trigger] values@[i])@.len()
                        == datas@[i].coeffs@.len()
                &&& forall|i: int, m: int|
                    0 <= i < datas@.len() && 0 <= m < values@[i]@.len() ==> (
                    #[trigger] values@[i]@[m])@.len() == points@[i]@.len()
                &&& forall|i: int, m: int, p: int|
                    0 <= i < datas@.len() && 0 <= m < values@[i]@.len() && 0 <= p
                        < values@[i]@[m]@.len() ==> (#[trigger] values@[i]@[m]@[p])@.len()
                        == datas@[i].coeffs@[m]@.len() && all_fe(values@[i]@[m]@[p]@)
                // The claimed openings are the polynomial evaluations.
                &&& forall|i: int, m: int, p: int, c: int|
                    0 <= i < datas@.len() && 0 <= m < values@[i]@.len() && 0 <= p
                        < values@[i]@[m]@.len() && 0 <= c < values@[i]@[m]@[p]@.len()
                        ==> #[trigger] values@[i]@[m]@[p]@[c] == eval_poly(
                        datas@[i].coeffs@[m]@[c]@,
                        points@[i]@[p],
                    )
                &&& proof.fri.query_proofs@.len() == config.num_queries
                &&& proof.input_openings@.len() == config.num_queries
            },
            Err(e) => e == PcsError::ZetaInDomain || e == PcsError::FinalPolyDegreeTooHigh || e
                == PcsError::ProofOfWorkInvalid,
        },
{
    let ghost d0 = datas@[0].domain;
    // The claimed opening values: evaluate every stored polynomial at every
    // requested point.
    let mut values: Vec<Vec<Vec<Vec<u64>>>> = Vec::new();
    let mut i: usize = 0;
    while i < datas.len()
        invariant
            points@.len() == datas@.len(),
            forall|ii: int| 0 <= ii < datas@.len() ==> (#[trigger] datas@[ii]).wf(),
            forall|ii: int| 0 <= ii < points@.len() ==> all_fe((#[trigger] points@[ii])@),
            i <= datas@.len(),
            values@.len() == i,
            forall|ii: int|
                0 <= ii < i ==> (#[trigger] values@[ii])@.len() == datas@[ii].coeffs@.len(),
            forall|ii: int, m: int|
                0 <= ii < i && 0 <= m < values@[ii]@.len() ==> (#[trigger] values@[ii]@[m])@.len()
                    == points@[ii]@.len(),
            forall|ii: int, m: int, p: int|
                0 <= ii < i && 0 <= m < values@[ii]@.len() && 0 <= p < values@[ii]@[m]@.len()
                    ==> (#[trigger] values@[ii]@[m]@[p])@.len() == datas@[ii].coeffs@[m]@.len()
                    && all_fe(values@[ii]@[m]@[p]@),
            forall|ii: int, m: int, p: int, c: int|
                0 <= ii < i && 0 <= m < values@[ii]@.len() && 0 <= p < values@[ii]@[m]@.len() && 0
                    <= c < values@[ii]@[m]@[p]@.len() ==> #[trigger] values@[ii]@[m]@[p]@[c]
                    == eval_poly(datas@[ii].coeffs@[m]@[c]@, points@[ii]@[p]),
        decreases datas@.len() - i,
    {
        let data = &datas[i];
        let pts = &points[i];
        let mut mat_vals: Vec<Vec<Vec<u64>>> = Vec::new();
        let mut m: usize = 0;
        while m < data.coeffs.len()
            invariant
                0 <= i < datas@.len(),
                points@.len() == datas@.len(),
                data == datas@[i as int],
                data.wf(),
                pts@ == points@[i as int]@,
                all_fe(pts@),
                m <= data.coeffs@.len(),
                mat_vals@.len() == m,
                forall|mm: int|
                    0 <= mm < m ==> (#[trigger] mat_vals@[mm])@.len() == pts@.len(),
                forall|mm: int, p: int|
                    0 <= mm < m && 0 <= p < mat_vals@[mm]@.len() ==> (
                    #[trigger] mat_vals@[mm]@[p])@.len() == data.coeffs@[mm]@.len() && all_fe(
                        mat_vals@[mm]@[p]@,
                    ),
                forall|mm: int, p: int, c: int|
                    0 <= mm < m && 0 <= p < mat_vals@[mm]@.len() && 0 <= c
                        < mat_vals@[mm]@[p]@.len() ==> #[trigger] mat_vals@[mm]@[p]@[c]
                        == eval_poly(data.coeffs@[mm]@[c]@, pts@[p]),
            decreases data.coeffs@.len() - m,
        {
            let cols = &data.coeffs[m];
            let mut point_vals: Vec<Vec<u64>> = Vec::new();
            let mut p: usize = 0;
            while p < pts.len()
                invariant
                    0 <= m < data.coeffs@.len(),
                    data.wf(),
                    cols@ == data.coeffs@[m as int]@,
                    all_fe(pts@),
                    p <= pts@.len(),
                    point_vals@.len() == p,
                    forall|pp: int|
                        0 <= pp < p ==> (#[trigger] point_vals@[pp])@.len() == cols@.len()
                            && all_fe(point_vals@[pp]@),
                    forall|pp: int, c: int|
                        0 <= pp < p && 0 <= c < point_vals@[pp]@.len()
                            ==> #[trigger] point_vals@[pp]@[c] == eval_poly(
                            cols@[c]@,
                            pts@[pp],
                        ),
                decreases pts@.len() - p,
            {
                let z = pts[p];
                let mut col_vals: Vec<u64> = Vec::new();
                let mut c: usize = 0;
                while c < cols.len()
                    invariant
                        0 <= m < data.coeffs@.len(),
                        data.wf(),
                        cols@ == data.coeffs@[m as int]@,
                        is_fe(z),
                        c <= cols@.len(),
                        col_vals@.len() == c,
                        all_fe(col_vals@),
                        forall|cc: int|
                            0 <= cc < c ==> #[trigger] col_vals@[cc] == eval_poly(
                                cols@[cc]@,
                                z,
                            ),
                    decreases cols@.len() - c,
                {
                    col_vals.push(eval_poly_at(&cols[c], z));
                    c += 1;
                }
                point_vals.push(col_vals);
                p += 1;
            }
            mat_vals.push(point_vals);
            m += 1;
        }
        values.push(mat_vals);
        i += 1;
    }
    // The combined quotient codeword over the extension domain.
    let alpha = ch.sample();
    let n = datas[0].domain.size();
    let mut codeword: Vec<u64> = Vec::new();
    let mut xi: usize = 0;
    while xi < n
        invariant
            points@.len() == datas@.len(),
            datas@.len() >= 1,
            forall|ii: int| 0 <= ii < datas@.len() ==> (#[trigger] datas@[ii]).wf(),
            forall|ii: int|
                0 <= ii < datas@.len() ==> (#[trigger] datas@[ii]).domain == datas@[0].domain,
            forall|ii: int| 0 <= ii < points@.len() ==> all_fe((#[trigger] points@[ii])@),
            values@.len() == datas@.len(),
            forall|ii: int|
                0 <= ii < datas@.len() ==> (#[trigger] values@[ii])@.len()
                    == datas@[ii].coeffs@.len(),
            forall|ii: int, m: int|
                0 <= ii < datas@.len() && 0 <= m < values@[ii]@.len() ==> (
                #[trigger] values@[ii]@[m])@.len() == points@[ii]@.len(),
            forall|ii: int, m: int, p: int|
                0 <= ii < datas@.len() && 0 <= m < values@[ii]@.len() && 0 <= p
                    < values@[ii]@[m]@.len() ==> (#[trigger] values@[ii]@[m]@[p])@.len()
                    == datas@[ii].coeffs@[m]@.len() && all_fe(values@[ii]@[m]@[p]@),
            forall|ii: int, m: int, p: int, c: int|
                0 <= ii < datas@.len() && 0 <= m < values@[ii]@.len() && 0 <= p
                    < values@[ii]@[m]@.len() && 0 <= c < values@[ii]@[m]@[p]@.len()
                    ==> #[trigger] values@[ii]@[m]@[p]@[c] == eval_poly(
                    datas@[ii].coeffs@[m]@[c]@,
                    points@[ii]@[p],
                ),
            is_fe(alpha),
            ch.wf(),
            n == datas@[0].domain.spec_n(),
            xi <= n,
            codeword@.len() == xi,
            all_fe(codeword@),
        decreases n - xi,
    {
        // Collect every batch's row at this domain point.
        let mut rows: Vec<Vec<Vec<u64>>> = Vec::new();
        let mut ri: usize = 0;
        while ri < datas.len()
            invariant
                forall|ii: int| 0 <= ii < datas@.len() ==> (#[trigger] datas@[ii]).wf(),
                forall|ii: int|
                    0 <= ii < datas@.len() ==> (#[trigger] datas@[ii]).domain == datas@[0].domain,
                n == datas@[0].domain.spec_n(),
                xi < n,
                ri <= datas@.len(),
                rows@.len() == ri,
                forall|ii: int|
                    0 <= ii < ri ==> (#[trigger] rows@[ii])@.len() == datas@[ii].coeffs@.len(),
                forall|ii: int, m: int|
                    0 <= ii < ri && 0 <= m < rows@[ii]@.len() ==> all_fe(
                        (#[trigger] rows@[ii]@[m])@,
                    ) && rows@[ii]@[m]@.len() == datas@[ii].coeffs@[m]@.len(),
            decreases datas@.len() - ri,
        {
            let data = &datas[ri];
            let mut mat_rows: Vec<Vec<u64>> = Vec::new();
            let mut m: usize = 0;
            while m < data.tree.matrices.len()
                invariant
                    data == datas@[ri as int],
                    data.wf(),
                    0 <= ri < datas@.len(),
                    datas@[ri as int].domain == datas@[0].domain,
                    n == datas@[0].domain.spec_n(),
                    xi < n,
                    m <= data.tree.matrices@.len(),
                    data.coeffs@.len() == data.tree.matrices@.len(),
                    mat_rows@.len() == m,
                    forall|mm: int|
                        0 <= mm < m ==> all_fe((#[trigger] mat_rows@[mm])@)
                            && mat_rows@[mm]@.len() == data.coeffs@[mm]@.len(),
                decreases data.tree.matrices@.len() - m,
            {
                proof {
                    assert(data.tree.matrices@[m as int].spec_height() == pow2(
                        data.domain.log_n as nat,
                    ));
                }
                let row = data.tree.matrices[m].row(xi);
                mat_rows.push(row);
                m += 1;
            }
            rows.push(mat_rows);
            ri += 1;
        }
        let x = datas[0].domain.point_at(xi);
        let v = match reduced_opening_at(&rows, points, &values, alpha, x) {
            Ok(v) => v,
            Err(e) => {
                return Err(e);
            },
        };
        codeword.push(v);
        xi += 1;
    }
    // FRI on the combined quotient codeword.
    let fri_dom = TwoAdicDomain {
        log_n: datas[0].domain.log_n,
        generator: datas[0].domain.generator,
        shift: datas[0].domain.shift,
        shift_inv: datas[0].domain.shift_inv,
        n_inv: datas[0].domain.n_inv,
    };
    proof {
        assert(fri_dom =~= datas@[0].domain);
    }
    let (commits, trees, doms, betas, final_poly, chain) = match commit_phase(
        codeword,
        &fri_dom,
        config.log_blowup,
        ch,
    ) {
        Ok(t) => t,
        Err(_) => {
            return Err(PcsError::FinalPolyDegreeTooHigh);
        },
    };
    proof {
        assert forall|k: int| 0 <= k < doms@.len() implies (#[trigger] doms@[k]).wf()
            && doms@[k].log_n >= 1 by {
            assert(crate::fri::commit_round_ok(trees@[k], doms@[k], commits@[k]@, chain@[k]));
        }
        assert forall|k: int| 0 <= k < trees@.len() implies (#[trigger] trees@[k]).wf()
            && trees@[k].matrices@.len() == 1 by {
            assert(crate::fri::commit_round_ok(trees@[k], doms@[k], commits@[k]@, chain@[k]));
        }
    }
    let pow_witness = match grind(ch, config.proof_of_work_bits) {
        Ok(w) => w,
        Err(_) => {
            return Err(PcsError::ProofOfWorkInvalid);
        },
    };
    // Query phase: open every batch and every fold round at sampled indices.
    let mut query_proofs: Vec<Vec<CommitPhaseOpening>> = Vec::new();
    let mut input_openings: Vec<Vec<BatchOpening>> = Vec::new();
    let mut q: usize = 0;
    while q < config.num_queries
        invariant
            ch.wf(),
            config.wf(),
            datas@.len() >= 1,
            forall|ii: int| 0 <= ii < datas@.len() ==> (#[trigger] datas@[ii]).wf(),
            forall|ii: int|
                0 <= ii < datas@.len() ==> (#[trigger] datas@[ii]).domain == datas@[0].domain,
            n == datas@[0].domain.spec_n(),
            datas@[0].domain.log_n <= 27,
            commits@.len() == trees@.len(),
            commits@.len() == doms@.len(),
            forall|k: int|
                0 <= k < trees@.len() ==> (#[trigger] trees@[k]).wf()
                    && trees@[k].matrices@.len() == 1,
            forall|k: int|
                0 <= k < doms@.len() ==> (#[trigger] doms@[k]).wf() && doms@[k].log_n >= 1,
            q <= config.num_queries,
            query_proofs@.len() == q,
            input_openings@.len() == q,
        decreases config.num_queries - q,
    {
        let idx = ch.sample_bits(datas[0].domain.log_n);
        let mut batch: Vec<BatchOpening> = Vec::new();
        let mut bi: usize = 0;
        while bi < datas.len()
            invariant
                forall|ii: int| 0 <= ii < datas@.len() ==> (#[trigger] datas@[ii]).wf(),
                forall|ii: int|
                    0 <= ii < datas@.len() ==> (#[trigger] datas@[ii]).domain == datas@[0].domain,
                idx < datas@[0].domain.spec_n(),
                bi <= datas@.len(),
                batch@.len() == bi,
            decreases datas@.len() - bi,
        {
            let (opened_rows, path) = datas[bi].tree.open_batch(idx);
            batch.push(BatchOpening { opened_rows, path });
            bi += 1;
        }
        input_openings.push(batch);
        // Openings along the fold chain.
        let mut chain_openings: Vec<CommitPhaseOpening> = Vec::new();
        let mut cur_idx: usize = idx;
        let mut k: usize = 0;
        while k < trees.len()
            invariant
                commits@.len() == trees@.len(),
                commits@.len() == doms@.len(),
                forall|kk: int|
                    0 <= kk < trees@.len() ==> (#[trigger] trees@[kk]).wf()
                        && trees@[kk].matrices@.len() == 1,
                forall|kk: int|
                    0 <= kk < doms@.len() ==> (#[trigger] doms@[kk]).wf() && doms@[kk].log_n >= 1,
                k <= trees@.len(),
                chain_openings@.len() == k,
            decreases trees@.len() - k,
        {
            let tree = &trees[k];
            proof {
                lemma_pow2_pos(tree.log_height as nat);
            }
            let th = pow2_exec(tree.log_height);
            let r = cur_idx % th;
            let (opened_rows, path) = tree.open_batch(r);
            let opened_row = if opened_rows.len() == 1 {
                let mut v = opened_rows;
                match v.pop() {
                    Some(row) => row,
                    None => {
                        proof {
                            assert(false);
                        }
                        unreached()
                    },
                }
            } else {
                proof {
                    assert(false);
                }
                unreached()
            };
            chain_openings.push(CommitPhaseOpening { opened_row, path });
            cur_idx = r;
            k += 1;
        }
        query_proofs.push(chain_openings);
        q += 1;
    }
    let fri_proof = FriProof {
        commit_phase_commits: commits,
        query_proofs,
        final_poly,
        pow_witness,
    };
    Ok((values, PcsProof { fri: fri_proof, input_openings }))
}

/// A structural copy of a batch's opened rows.
fn clone_rows(src: &Vec<Vec<u64>>) -> (out: Vec<Vec<u64>>)
    ensures
        out@.len() == src@.len(),
        forall|m: int| 0 <= m < src@.len() ==> (#[trigger] out@[m])@ == src@[m]@,
{
    let mut out: Vec<Vec<u64>> = Vec::new();
    let mut m: usize = 0;
    while m < src.len()
        invariant
            m <= src@.len(),
            out@.len() == m,
            forall|mm: int| 0 <= mm < m ==> (#[trigger] out@[mm])@ == src@[mm]@,
        decreases src@.len() - m,
    {
        out.push(src[m].clone());
        m += 1;
    }
    out
}

/// The transcript state after replaying the round commitments: each round
/// absorbs one commitment and draws one folding challenge.
pub open spec fn betas_state(st: Seq<u64>, cs: Seq<Seq<u64>>) -> Seq<u64>
    decreases cs.len(),
{
    if cs.len() == 0 {
        st
    } else {
        crate::symmetric::spec_permute(
            crate::symmetric::spec_absorb_seq(betas_state(st, cs.drop_last()), cs.last()),
        )
    }
}

/// The folding challenges the transcript yields for the round commitments.
pub open spec fn spec_betas(st: Seq<u64>, cs: Seq<Seq<u64>>) -> Seq<u64>
    decreases cs.len(),
{
    if cs.len() == 0 {
        Seq::empty()
    } else {
        spec_betas(st, cs.drop_last()).push(
            crate::symmetric::spec_absorb_seq(betas_state(st, cs.drop_last()), cs.last())[0],
        )
    }
}

/// The transcript state after `q` further samples.
pub open spec fn perms(st: Seq<u64>, q: nat) -> Seq<u64>
    decreases q,
{
    if q == 0 {
        st
    } else {
        crate::symmetric::spec_permute(perms(st, (q - 1) as nat))
    }
}

/// The query index the transcript yields for query `q`.
pub open spec fn spec_query_index(st: Seq<u64>, q: nat, log_n: usize) -> int {
    perms(st, q)[0] as int % pow2(log_n as nat) as int
}

/// The coset shift of fold round `k`: the base shift squared `k` times.
pub open spec fn spec_round_shift(k: nat) -> u64
    decreases k,
{
    if k == 0 {
        GENERATOR
    } else {
        mulf(spec_round_shift((k - 1) as nat), spec_round_shift((k - 1) as nat))
    }
}

/// The evaluation domain of fold round `k`.
pub open spec fn spec_round_domain(log_n: usize, k: nat) -> TwoAdicDomain {
    TwoAdicDomain {
        log_n: (log_n - k) as usize,
        generator: crate::dft::spec_two_adic_generator((log_n - k) as usize),
        shift: spec_round_shift(k),
        shift_inv: inv_f(spec_round_shift(k)),
        n_inv: inv_f(pow2((log_n - k) as nat) as u64),
    }
}

/// One query's acceptance at index `idx`: every committed batch's claimed
/// opening passes the Merkle check at `idx`, the combined quotient value is
/// defined there, and the fold chain replays from it down to the final
/// polynomial.
pub open spec fn pcs_query_ok(
    commits: Seq<Seq<u64>>,
    dimss: Seq<Seq<Dimensions>>,
    points: Seq<Seq<u64>>,
    values: Seq<Seq<Seq<Seq<u64>>>>,
    proof: PcsProof,
    q: int,
    idx: int,
    alpha: u64,
    betas: Seq<u64>,
    doms: Seq<TwoAdicDomain>,
    x: u64,
) -> bool {
    let openings = proof.input_openings@[q]@;
    let orows = Seq::new(
        openings.len(),
        |i: int| openings[i].opened_rows@.map_values(|v: Vec<u64>| v@),
    );
    &&& openings.len() == commits.len()
    &&& proof.fri.query_proofs@[q]@.len() == proof.fri.commit_phase_commits@.len()
    &&& forall|i: int|
        0 <= i < commits.len() ==> crate::merkle_tree::shape_ok(
            dimss[i],
            idx,
            #[trigger] orows[i],
            openings[i].path@.map_values(|v: Vec<u64>| v@),
        ) && crate::merkle_tree::recomputed_root(
            idx,
            orows[i],
            openings[i].path@.map_values(|v: Vec<u64>| v@),
        ) == commits[i]
    &&& dens_ok(orows, points, x)
    &&& crate::fri::query_chain_ok(
        proof.fri.commit_phase_commits@.map_values(|c: Vec<u64>| c@),
        betas,
        doms,
        crate::fri::opening_rows(proof.fri.query_proofs@[q]@),
        crate::fri::opening_paths(proof.fri.query_proofs@[q]@),
        idx,
        spec_reduced_opening(orows, values, points, alpha, x),
        proof.fri.final_poly,
    )
}

/// One query's acceptance, with its index and every challenge derived from
/// the starting transcript state.
pub open spec fn pcs_query_accepted(
    commits: Seq<Seq<u64>>,
    dimss: Seq<Seq<Dimensions>>,
    points: Seq<Seq<u64>>,
    values: Seq<Seq<Seq<Seq<u64>>>>,
    proof: PcsProof,
    log_h: usize,
    config: FriConfig,
    st0: Seq<u64>,
    q: int,
) -> bool {
    let log_n = (log_h + config.log_blowup) as usize;
    let alpha = st0[0];
    let st1 = crate::symmetric::spec_permute(st0);
    let fri_coms = proof.fri.commit_phase_commits@.map_values(|c: Vec<u64>| c@);
    let betas = spec_betas(st1, fri_coms);
    let st2 = betas_state(st1, fri_coms);
    let st3 = crate::symmetric::spec_permute(
        crate::symmetric::spec_absorb(st2, proof.fri.pow_witness),
    );
    let doms = Seq::new(log_h as nat, |k: int| spec_round_domain(log_n, k as nat));
    let idx = spec_query_index(st3, q as nat, log_n);
    pcs_query_ok(
        commits,
        dimss,
        points,
        values,
        proof,
        q,
        idx,
        alpha,
        betas,
        doms,
        spec_round_domain(log_n, 0).point(idx),
    )
}

/// What a passing PCS verification establishes, with every challenge and
/// query index derived from the starting transcript state: the proof's
/// counts match the configuration, the grinding witness meets the
/// difficulty, and every transcript-drawn query index is accepted.
pub open spec fn pcs_acceptance(
    commits: Seq<Seq<u64>>,
    dimss: Seq<Seq<Dimensions>>,
    points: Seq<Seq<u64>>,
    values: Seq<Seq<Seq<Seq<u64>>>>,
    proof: PcsProof,
    log_h: usize,
    config: FriConfig,
    st0: Seq<u64>,
) -> bool {
    let log_n = (log_h + config.log_blowup) as usize;
    let alpha = st0[0];
    let st1 = crate::symmetric::spec_permute(st0);
    let fri_coms = proof.fri.commit_phase_commits@.map_values(|c: Vec<u64>| c@);
    let betas = spec_betas(st1, fri_coms);
    let st2 = betas_state(st1, fri_coms);
    let st3 = crate::symmetric::spec_permute(
        crate::symmetric::spec_absorb(st2, proof.fri.pow_witness),
    );
    let doms = Seq::new(log_h as nat, |k: int| spec_round_domain(log_n, k as nat));
    &&& proof.fri.commit_phase_commits@.len() == log_h
    &&& proof.fri.query_proofs@.len() == config.num_queries
    &&& proof.input_openings@.len() == config.num_queries
    &&& is_fe(proof.fri.final_poly)
    &&& is_fe(proof.fri.pow_witness)
    &&& forall|k: int|
        0 <= k < log_h ==> (#[trigger] proof.fri.commit_phase_commits@[k])@.len()
            == crate::symmetric::DIGEST_WIDTH && all_fe(proof.fri.commit_phase_commits@[k]@)
    &&& forall|k: nat|
        k <= log_h ==> crate::dft::spec_domain_constructible(
            (log_n - k) as usize,
            #[trigger] spec_round_shift(k),
        )
    &&& crate::fri::pow_check(st2, proof.fri.pow_witness, config.proof_of_work_bits as nat)
    &&& forall|q: int|
        0 <= q < config.num_queries ==> #[trigger] pcs_query_accepted(
            commits,
            dimss,
            points,
            values,
            proof,
            log_h,
            config,
            st0,
            q,
        )
}

/// Checks a batch of opened values against the commitments: replays the
/// transcript, checks the grinding witness, and, at every sampled query
/// index, checks each batch's Merkle opening, recombines the quotient value,
/// and replays the FRI fold chain against the round commitments. Success is
/// only returned when `pcs_acceptance` holds of the proof at the
/// transcript-drawn indices.
pub fn pcs_verify(
    commits: &Vec<Vec<u64>>,
    dimss: &Vec<Vec<Dimensions>>,
    points: &Vec<Vec<u64>>,
    values: &Vec<Vec<Vec<Vec<u64>>>>,
    proof: &PcsProof,
    log_h: usize,
    config: &FriConfig,
    ch: &mut Challenger,
) -> (r: Result<(), PcsError>)
    requires
        old(ch).wf(),
        config.wf(),
        1 <= log_h,
        log_h + config.log_blowup <= 27,
        commits@.len() >= 1,
        commits@.len() == dimss@.len(),
        commits@.len() == points@.len(),
        commits@.len() == values@.len(),
        forall|i: int|
            0 <= i < commits@.len() ==> (#[trigger] commits@[i])@.len() == DIGEST_WIDTH,
        forall|i: int| 0 <= i < points@.len() ==> all_fe((#[trigger] points@[i])@),
        forall|i: int|
            0 <= i < values@.len() ==> (#[trigger] values@[i])@.len() == dimss@[i]@.len(),
        forall|i: int, m: int|
            0 <= i < values@.len() && 0 <= m < values@[i]@.len() ==> (
            #[trigger] values@[i]@[m])@.len() == points@[i]@.len(),
        forall|i: int, m: int, p: int|
            0 <= i < values@.len() && 0 <= m < values@[i]@.len() && 0 <= p
                < values@[i]@[m]@.len() ==> (#[trigger] values@[i]@[m]@[p])@.len()
                == dimss@[i]@[m].width && all_fe(values@[i]@[m]@[p]@),
    ensures
        final(ch).wf(),
        r == Ok::<(), PcsError>(()) <==> pcs_acceptance(
            commits@.map_values(|c: Vec<u64>| c@),
            dimss@.map_values(|d: Vec<Dimensions>| d@),
            points_view(points@),
            values_view(values@),
            *proof,
            log_h,
            *config,
            old(ch).state@,
        ),
{
    let ghost st0g = old(ch).state@;
    let ghost commitsg = commits@.map_values(|c: Vec<u64>| c@);
    let ghost dimssg = dimss@.map_values(|d: Vec<Dimensions>| d@);
    let ghost pointsg = points_view(points@);
    let ghost valuesg = values_view(values@);
    let ghost fri_coms = proof.fri.commit_phase_commits@.map_values(|c: Vec<u64>| c@);
    let log_n = log_h + config.log_blowup;
    let rounds = log_h;
    let ghost acc_ok = pcs_acceptance(
        commitsg,
        dimssg,
        pointsg,
        valuesg,
        *proof,
        log_h,
        *config,
        st0g,
    );
    if proof.fri.commit_phase_commits.len() != rounds {
        proof {
            assert(!acc_ok);
        }
        return Err(PcsError::InvalidProofShape);
    }
    if proof.fri.query_proofs.len() != config.num_queries
        || proof.input_openings.len() != config.num_queries {
        proof {
            assert(!acc_ok);
        }
        return Err(PcsError::InvalidProofShape);
    }
    if proof.fri.final_poly >= P || proof.fri.pow_witness >= P {
        proof {
            assert(!acc_ok);
        }
        return Err(PcsError::InvalidProofShape);
    }
    let final_poly = proof.fri.final_poly;
    // Replay the transcript: the combining challenge, then one folding
    // challenge after each round commitment.
    let alpha = ch.sample();
    let ghost st1g = crate::symmetric::spec_permute(st0g);
    proof {
        assert(alpha == st0g[0]);
        assert(ch.state@ == st1g);
        assert(fri_coms.take(0) =~= Seq::<Seq<u64>>::empty());
    }
    let mut betas: Vec<u64> = Vec::new();
    let mut k: usize = 0;
    while k < rounds
        invariant
            ch.wf(),
            proof.fri.commit_phase_commits@.len() == rounds,
            fri_coms == proof.fri.commit_phase_commits@.map_values(|c: Vec<u64>| c@),
            acc_ok == pcs_acceptance(
                commits@.map_values(|c: Vec<u64>| c@),
                dimss@.map_values(|d: Vec<Dimensions>| d@),
                points_view(points@),
                values_view(values@),
                *proof,
                log_h,
                *config,
                old(ch).state@,
            ),
            rounds == log_h,
            log_n == log_h + config.log_blowup,
            k <= rounds,
            betas@.len() == k,
            all_fe(betas@),
            ch.state@ == betas_state(st1g, fri_coms.take(k as int)),
            betas@ == spec_betas(st1g, fri_coms.take(k as int)),
            forall|kk: int|
                0 <= kk < k ==> (#[trigger] proof.fri.commit_phase_commits@[kk])@.len()
                    == DIGEST_WIDTH && all_fe(proof.fri.commit_phase_commits@[kk]@),
        decreases rounds - k,
    {
        let com = &proof.fri.commit_phase_commits[k];
        if com.len() != DIGEST_WIDTH {
            proof {
                assert(!acc_ok) by {
                    assert((proof.fri.commit_phase_commits@[k as int])@.len() != DIGEST_WIDTH);
                }
            }
            return Err(PcsError::InvalidProofShape);
        }
        let mut c: usize = 0;
        while c < com.len()
            invariant
                ch.wf(),
                com@ == proof.fri.commit_phase_commits@[k as int]@,
                0 <= k < rounds,
                proof.fri.commit_phase_commits@.len() == rounds,
            acc_ok == pcs_acceptance(
                commits@.map_values(|c: Vec<u64>| c@),
                dimss@.map_values(|d: Vec<Dimensions>| d@),
                points_view(points@),
                values_view(values@),
                *proof,
                log_h,
                *config,
                old(ch).state@,
            ),
            rounds == log_h,
            log_n == log_h + config.log_blowup,
                c <= com@.len(),
                forall|cc: int| 0 <= cc < c ==> is_fe(#[trigger] com@[cc]),
            decreases com@.len() - c,
        {
            if com[c] >= P {
                proof {
                    assert(!acc_ok) by {
                        assert(proof.fri.commit_phase_commits@[k as int]@[c as int] == com@[
                            c as int
                        ]);
                        assert(!is_fe(proof.fri.commit_phase_commits@[k as int]@[c as int]));
                        assert(!all_fe(proof.fri.commit_phase_commits@[k as int]@));
                    }
                }
                return Err(PcsError::InvalidProofShape);
            }
            c += 1;
        }
        ch.observe_elements(com);
        betas.push(ch.sample());
        proof {
            assert(fri_coms.take(k + 1).drop_last() =~= fri_coms.take(k as int));
            assert(fri_coms.take(k + 1).last() == fri_coms[k as int]);
            assert(fri_coms[k as int] == com@);
        }
        k += 1;
    }
    proof {
        assert(fri_coms.take(rounds as int) =~= fri_coms);
    }
    // The fold-round domains, shift squared each round.
    let d0 = match coset_domain(log_n, GENERATOR) {
        Some(d) => d,
        None => {
            proof {
                assert(GENERATOR == spec_round_shift(0));
                assert(!acc_ok) by {
                    if acc_ok {
                        let lna = (log_h + config.log_blowup) as usize;
                        assert(crate::dft::spec_domain_constructible(
                            (lna - 0) as usize,
                            spec_round_shift(0),
                        ));
                        assert(false);
                    }
                }
            }
            return Err(PcsError::FriFailure);
        },
    };
    let mut doms: Vec<TwoAdicDomain> = Vec::new();
    let mut dom = d0;
    let mut k2: usize = 0;
    proof {
        assert(d0 == spec_round_domain(log_n, 0));
        assert(GENERATOR == spec_round_shift(0));
        assert(crate::dft::spec_domain_constructible(log_n, spec_round_shift(0)));
    }
    while k2 < rounds
        invariant
            ch.wf(),
            1 <= log_h,
            config.wf(),
            log_n == log_h + config.log_blowup,
            acc_ok == pcs_acceptance(
                commits@.map_values(|c: Vec<u64>| c@),
                dimss@.map_values(|d: Vec<Dimensions>| d@),
                points_view(points@),
                values_view(values@),
                *proof,
                log_h,
                *config,
                old(ch).state@,
            ),
            rounds == log_h,
            dom.wf(),
            dom.log_n == log_n - k2,
            dom == spec_round_domain(log_n, k2 as nat),
            k2 <= rounds,
            forall|kk: nat|
                kk <= k2 ==> crate::dft::spec_domain_constructible(
                    (log_n - kk) as usize,
                    #[trigger] spec_round_shift(kk),
                ),
            doms@.len() == k2,
            forall|kk: int|
                0 <= kk < k2 ==> (#[trigger] doms@[kk]).wf() && doms@[kk].log_n >= 1,
            forall|kk: int|
                0 <= kk < k2 ==> #[trigger] doms@[kk] == spec_round_domain(log_n, kk as nat),
        decreases rounds - k2,
    {
        let shift2 = mul_fe(dom.shift, dom.shift);
        proof {
            assert(shift2 == spec_round_shift((k2 + 1) as nat));
        }
        let next = match coset_domain(dom.log_n - 1, shift2) {
            Some(d) => d,
            None => {
                proof {
                    assert(!crate::dft::spec_domain_constructible(
                        (log_n - (k2 + 1)) as usize,
                        spec_round_shift((k2 + 1) as nat),
                    ));
                    assert(!acc_ok) by {
                        if acc_ok {
                            let lna = (log_h + config.log_blowup) as usize;
                            assert(crate::dft::spec_domain_constructible(
                                (lna - (k2 + 1)) as usize,
                                spec_round_shift((k2 + 1) as nat),
                            ));
                            assert(false);
                        }
                    }
                }
                return Err(PcsError::FriFailure);
            },
        };
        proof {
            assert(next == spec_round_domain(log_n, (k2 + 1) as nat));
        }
        doms.push(dom);
        dom = next;
        k2 += 1;
    }
    // The grinding witness.
    let ghost st2g = betas_state(st1g, fri_coms);
    ch.observe(proof.fri.pow_witness);
    let pow_sample = ch.sample_bits(config.proof_of_work_bits);
    if pow_sample != 0 {
        proof {
            assert(!crate::fri::pow_check(
                st2g,
                proof.fri.pow_witness,
                config.proof_of_work_bits as nat,
            ));
            assert(!acc_ok);
        }
        return Err(PcsError::ProofOfWorkInvalid);
    }
    let ghost st3g = crate::symmetric::spec_permute(
        crate::symmetric::spec_absorb(st2g, proof.fri.pow_witness),
    );
    proof {
        assert(crate::fri::pow_check(st2g, proof.fri.pow_witness, config.proof_of_work_bits as nat));
        assert(ch.state@ == st3g);
    }
    // Query phase.
    let mut q: usize = 0;
    while q < config.num_queries
        invariant
            ch.wf(),
            config.wf(),
            1 <= log_h,
            log_n == log_h + config.log_blowup,
            log_n <= 27,
            rounds == log_h,
            commits@.len() >= 1,
            commits@.len() == dimss@.len(),
            commits@.len() == points@.len(),
            commits@.len() == values@.len(),
            forall|i: int|
                0 <= i < commits@.len() ==> (#[trigger] commits@[i])@.len() == DIGEST_WIDTH,
            forall|i: int| 0 <= i < points@.len() ==> all_fe((#[trigger] points@[i])@),
            forall|i: int|
                0 <= i < values@.len() ==> (#[trigger] values@[i])@.len() == dimss@[i]@.len(),
            forall|i: int, m: int|
                0 <= i < values@.len() && 0 <= m < values@[i]@.len() ==> (
                #[trigger] values@[i]@[m])@.len() == points@[i]@.len(),
            forall|i: int, m: int, p: int|
                0 <= i < values@.len() && 0 <= m < values@[i]@.len() && 0 <= p
                    < values@[i]@[m]@.len() ==> (#[trigger] values@[i]@[m]@[p])@.len()
                    == dimss@[i]@[m].width && all_fe(values@[i]@[m]@[p]@),
            proof.fri.query_proofs@.len() == config.num_queries,
            proof.input_openings@.len() == config.num_queries,
            proof.fri.commit_phase_commits@.len() == rounds,
            forall|kk: int|
                0 <= kk < rounds ==> (#[trigger] proof.fri.commit_phase_commits@[kk])@.len()
                    == DIGEST_WIDTH,
            betas@.len() == rounds,
            all_fe(betas@),
            doms@.len() == rounds,
            forall|kk: int|
                0 <= kk < rounds ==> (#[trigger] doms@[kk]).wf() && doms@[kk].log_n >= 1,
            is_fe(final_poly),
            final_poly == proof.fri.final_poly,
            is_fe(alpha),
            d0.wf(),
            d0.log_n == log_n,
            d0 == spec_round_domain(log_n, 0),
            q <= config.num_queries,
            acc_ok == pcs_acceptance(
                commits@.map_values(|c: Vec<u64>| c@),
                dimss@.map_values(|d: Vec<Dimensions>| d@),
                points_view(points@),
                values_view(values@),
                *proof,
                log_h,
                *config,
                old(ch).state@,
            ),
            st0g == old(ch).state@,
            commitsg == commits@.map_values(|c: Vec<u64>| c@),
            dimssg == dimss@.map_values(|d: Vec<Dimensions>| d@),
            pointsg == points_view(points@),
            valuesg == values_view(values@),
            fri_coms == proof.fri.commit_phase_commits@.map_values(|c: Vec<u64>| c@),
            alpha == st0g[0],
            betas@ == spec_betas(st1g, fri_coms),
            st1g == crate::symmetric::spec_permute(st0g),
            st3g == crate::symmetric::spec_permute(
                crate::symmetric::spec_absorb(betas_state(st1g, fri_coms), proof.fri.pow_witness),
            ),
            ch.state@ == perms(st3g, q as nat),
            forall|kk: int|
                0 <= kk < rounds ==> #[trigger] doms@[kk] == spec_round_domain(log_n, kk as nat),
            forall|qq: int|
                0 <= qq < q ==> #[trigger] pcs_query_accepted(
                    commitsg,
                    dimssg,
                    pointsg,
                    valuesg,
                    *proof,
                    log_h,
                    *config,
                    st0g,
                    qq,
                ),
        decreases config.num_queries - q,
    {
        let idx = ch.sample_bits(log_n);
        let ghost gidx = spec_query_index(st3g, q as nat, log_n);
        let ghost domsg = Seq::new(rounds as nat, |kk: int| spec_round_domain(log_n, kk as nat));
        let ghost acc_x = spec_round_domain(log_n, 0).point(gidx);
        proof {
            assert(idx as int == gidx);
            assert(ch.state@ == perms(st3g, (q + 1) as nat));
            assert(doms@ =~= domsg);
        }
        let batch = &proof.input_openings[q];
        if batch.len() != commits.len() {
            proof {
                assert(!pcs_query_ok(
                    commitsg,
                    dimssg,
                    pointsg,
                    valuesg,
                    *proof,
                    q as int,
                    gidx,
                    alpha,
                    betas@,
                    domsg,
                    acc_x,
                ));
                assert(!pcs_query_accepted(
                    commitsg,
                    dimssg,
                    pointsg,
                    valuesg,
                    *proof,
                    log_h,
                    *config,
                    st0g,
                    q as int,
                ));
                assert(!acc_ok);
            }
            return Err(PcsError::InvalidProofShape);
        }
        // Check every batch's Merkle opening and collect the opened rows.
        let mut rows: Vec<Vec<Vec<u64>>> = Vec::new();
        let mut bi: usize = 0;
        while bi < commits.len()
            invariant
                ch.wf(),
                commits@.len() == dimss@.len(),
                commits@.len() == values@.len(),
                commits@.len() == points@.len(),
                batch@.len() == commits@.len(),
                batch@ == proof.input_openings@[q as int]@,
                0 <= q < config.num_queries,
                pointsg == points_view(points@),
                valuesg == values_view(values@),
                acc_ok == pcs_acceptance(
                    commits@.map_values(|c: Vec<u64>| c@),
                    dimss@.map_values(|d: Vec<Dimensions>| d@),
                    points_view(points@),
                    values_view(values@),
                    *proof,
                    log_h,
                    *config,
                    old(ch).state@,
                ),
                st0g == old(ch).state@,
                st1g == crate::symmetric::spec_permute(st0g),
                fri_coms == proof.fri.commit_phase_commits@.map_values(|c: Vec<u64>| c@),
                st3g == crate::symmetric::spec_permute(
                    crate::symmetric::spec_absorb(
                        betas_state(st1g, fri_coms),
                        proof.fri.pow_witness,
                    ),
                ),
                alpha == st0g[0],
                betas@ == spec_betas(st1g, fri_coms),
                rounds == log_h,
                log_n == log_h + config.log_blowup,
                gidx == spec_query_index(st3g, q as nat, log_n),
                idx as int == gidx,
                idx < pow2(log_n as nat),
                forall|i: int|
                    0 <= i < commits@.len() ==> (#[trigger] commits@[i])@.len() == DIGEST_WIDTH,
                bi <= commits@.len(),
                rows@.len() == bi,
                commitsg == commits@.map_values(|c: Vec<u64>| c@),
                dimssg == dimss@.map_values(|d: Vec<Dimensions>| d@),
                forall|i: int|
                    0 <= i < bi ==> (#[trigger] rows@[i])@.len() == dimss@[i]@.len(),
                forall|i: int, m: int|
                    0 <= i < bi && 0 <= m < rows@[i]@.len() ==> all_fe((#[trigger] rows@[i]@[m])@)
                        && rows@[i]@[m]@.len() == dimss@[i]@[m].width,
                forall|i: int|
                    0 <= i < bi ==> (#[trigger] rows@[i])@.len()
                        == batch@[i].opened_rows@.len(),
                forall|i: int, m: int|
                    0 <= i < bi && 0 <= m < rows@[i]@.len() ==> #[trigger] rows@[i]@[m]@
                        == batch@[i].opened_rows@[m]@,
                forall|i: int|
                    0 <= i < bi ==> crate::merkle_tree::shape_ok(
                        dimssg[i],
                        idx as int,
                        (#[trigger] batch@[i]).opened_rows@.map_values(|v: Vec<u64>| v@),
                        batch@[i].path@.map_values(|v: Vec<u64>| v@),
                    ) && crate::merkle_tree::recomputed_root(
                        idx as int,
                        batch@[i].opened_rows@.map_values(|v: Vec<u64>| v@),
                        batch@[i].path@.map_values(|v: Vec<u64>| v@),
                    ) == commitsg[i],
            decreases commits@.len() - bi,
        {
            let opening = &batch[bi];
            let vb = verify_batch(
                &commits[bi],
                &dimss[bi],
                idx,
                &opening.opened_rows,
                &opening.path,
            );
            proof {
                if vb is Err {
                    // This batch's opening fails the Merkle check at the
                    // transcript index, so the acceptance predicate fails.
                    let openedv = opening.opened_rows@.map_values(|v: Vec<u64>| v@);
                    let pathv = opening.path@.map_values(|v: Vec<u64>| v@);
                    if vb is Ok {
                    } else {
                        assert(!(crate::merkle_tree::shape_ok(
                            dimss@[bi as int]@,
                            idx as int,
                            openedv,
                            pathv,
                        ) && crate::merkle_tree::recomputed_root(idx as int, openedv, pathv)
                            == commits@[bi as int]@)) by {
                            if vb == Err::<(), crate::merkle_tree::MmcsError>(
                                crate::merkle_tree::MmcsError::DimensionMismatch,
                            ) {
                            } else {
                                assert(!(vb == Ok::<(), crate::merkle_tree::MmcsError>(())));
                            }
                        }
                        assert(!pcs_query_ok(
                            commits@.map_values(|c: Vec<u64>| c@),
                            dimss@.map_values(|d: Vec<Dimensions>| d@),
                            pointsg,
                            valuesg,
                            *proof,
                            q as int,
                            gidx,
                            alpha,
                            spec_betas(st1g, fri_coms),
                            Seq::new(rounds as nat, |kk: int| spec_round_domain(log_n, kk as nat)),
                            spec_round_domain(log_n, 0).point(gidx),
                        )) by {
                            let openings = proof.input_openings@[q as int]@;
                            let orows2 = Seq::new(
                                openings.len(),
                                |i: int| openings[i].opened_rows@.map_values(|v: Vec<u64>| v@),
                            );
                            assert(orows2[bi as int] == openedv);
                            assert(batch@[bi as int] == *opening);
                        }
                        assert(!pcs_query_accepted(
                            commitsg,
                            dimssg,
                            pointsg,
                            valuesg,
                            *proof,
                            log_h,
                            *config,
                            st0g,
                            q as int,
                        ));
                        assert(!acc_ok);
                    }
                }
            }
            match vb {
                Ok(()) => {},
                Err(_) => {
                    return Err(PcsError::MmcsFailure);
                },
            }
            proof {
                assert(vb->Ok_0 == ());
                assert(vb == Ok::<(), crate::merkle_tree::MmcsError>(()));
                let dimsv = dimss@[bi as int]@;
                let openedv = opening.opened_rows@.map_values(|v: Vec<u64>| v@);
                assert(crate::merkle_tree::shape_ok(
                    dimsv,
                    idx as int,
                    openedv,
                    opening.path@.map_values(|v: Vec<u64>| v@),
                ));
                assert(dimssg[bi as int] == dimss@[bi as int]@);
                assert(commitsg[bi as int] == commits@[bi as int]@);
                assert(batch@[bi as int] == *opening);
                assert(crate::merkle_tree::recomputed_root(
                    idx as int,
                    batch@[bi as int].opened_rows@.map_values(|v: Vec<u64>| v@),
                    batch@[bi as int].path@.map_values(|v: Vec<u64>| v@),
                ) == commitsg[bi as int]);
            }
            let cloned = clone_rows(&opening.opened_rows);
            proof {
                let dimsv = dimss@[bi as int]@;
                let openedv = opening.opened_rows@.map_values(|v: Vec<u64>| v@);
                assert forall|m: int| 0 <= m < cloned@.len() implies all_fe(
                    (#[trigger] cloned@[m])@,
                ) && cloned@[m]@.len() == dimsv[m].width by {
                    assert(openedv[m] == opening.opened_rows@[m]@);
                    assert(dimsv[m].width > 0 && openedv[m].len() == dimsv[m].width && all_fe(
                        openedv[m],
                    ));
                }
            }
            rows.push(cloned);
            bi += 1;
        }
        // Recombine the quotient value at this index and replay the folds.
        let ghost orows = Seq::new(
            batch@.len() as nat,
            |i: int| batch@[i].opened_rows@.map_values(|v: Vec<u64>| v@),
        );
        proof {
            assert(rows_view(rows@) =~~= orows);
        }
        let x = d0.point_at(idx);
        let ro = match reduced_opening_at(&rows, points, values, alpha, x) {
            Ok(v) => v,
            Err(e) => {
                proof {
                    assert(!dens_ok(orows, pointsg, acc_x)) by {
                        assert(!dens_ok(rows_view(rows@), points_view(points@), x));
                        assert(x == acc_x);
                    }
                    assert(!pcs_query_ok(
                        commitsg,
                        dimssg,
                        pointsg,
                        valuesg,
                        *proof,
                        q as int,
                        gidx,
                        alpha,
                        betas@,
                        domsg,
                        acc_x,
                    ));
                    assert(!pcs_query_accepted(
                    commitsg,
                    dimssg,
                    pointsg,
                    valuesg,
                    *proof,
                    log_h,
                    *config,
                    st0g,
                    q as int,
                ));
                assert(!acc_ok);
                }
                return Err(e);
            },
        };
        if proof.fri.query_proofs[q].len() != rounds {
            proof {
                assert(proof.fri.query_proofs@[q as int]@.len()
                    != proof.fri.commit_phase_commits@.len());
                assert(!pcs_query_ok(
                    commitsg,
                    dimssg,
                    pointsg,
                    valuesg,
                    *proof,
                    q as int,
                    gidx,
                    alpha,
                    betas@,
                    domsg,
                    acc_x,
                ));
                assert(!pcs_query_accepted(
                    commitsg,
                    dimssg,
                    pointsg,
                    valuesg,
                    *proof,
                    log_h,
                    *config,
                    st0g,
                    q as int,
                ));
                assert(!acc_ok);
            }
            return Err(PcsError::InvalidProofShape);
        }
        let vq = verify_query(
            &proof.fri.commit_phase_commits,
            &betas,
            &doms,
            &proof.fri.query_proofs[q],
            idx,
            ro,
            final_poly,
        );
        proof {
            if vq is Err {
                // The fold chain fails at this transcript index, so the
                // acceptance predicate fails.
                assert(!crate::fri::query_chain_ok(
                    proof.fri.commit_phase_commits@.map_values(|c: Vec<u64>| c@),
                    betas@,
                    doms@,
                    crate::fri::opening_rows(proof.fri.query_proofs@[q as int]@),
                    crate::fri::opening_paths(proof.fri.query_proofs@[q as int]@),
                    idx as int,
                    ro,
                    final_poly,
                ));
                assert(ro == spec_reduced_opening(orows, valuesg, pointsg, alpha, acc_x)) by {
                    assert(ro == spec_reduced_opening(
                        rows_view(rows@),
                        values_view(values@),
                        points_view(points@),
                        alpha,
                        x,
                    ));
                    assert(orows == rows_view(rows@));
                    assert(x == acc_x);
                }
                assert(!pcs_query_ok(
                    commitsg,
                    dimssg,
                    pointsg,
                    valuesg,
                    *proof,
                    q as int,
                    gidx,
                    alpha,
                    betas@,
                    domsg,
                    acc_x,
                ));
                assert(!pcs_query_accepted(
                    commitsg,
                    dimssg,
                    pointsg,
                    valuesg,
                    *proof,
                    log_h,
                    *config,
                    st0g,
                    q as int,
                ));
                assert(!acc_ok);
            }
        }
        match vq {
            Ok(()) => {},
            Err(crate::fri::FriError::CommitPhaseMmcsError) => {
                return Err(PcsError::MmcsFailure);
            },
            Err(crate::fri::FriError::FinalPolyDegreeTooHigh) => {
                return Err(PcsError::FinalPolyDegreeTooHigh);
            },
            Err(crate::fri::FriError::InvalidProofShape) => {
                return Err(PcsError::InvalidProofShape);
            },
            Err(_) => {
                return Err(PcsError::FriFailure);
            },
        }
        proof {
            assert(vq->Ok_0 == ());
            assert(vq == Ok::<(), crate::fri::FriError>(()));
            let gidx = spec_query_index(st3g, q as nat, log_n);
            let domsg = Seq::new(rounds as nat, |kk: int| spec_round_domain(log_n, kk as nat));
            assert(doms@ =~= domsg);
            assert(crate::fri::query_chain_ok(
                proof.fri.commit_phase_commits@.map_values(|c: Vec<u64>| c@),
                betas@,
                doms@,
                crate::fri::opening_rows(proof.fri.query_proofs@[q as int]@),
                crate::fri::opening_paths(proof.fri.query_proofs@[q as int]@),
                idx as int,
                ro,
                final_poly,
            ));
            assert(idx as int == gidx);
            assert(final_poly == proof.fri.final_poly);
            assert(ro == spec_reduced_opening(orows, valuesg, pointsg, alpha, x)) by {
                assert(ro == spec_reduced_opening(
                    rows_view(rows@),
                    values_view(values@),
                    points_view(points@),
                    alpha,
                    x,
                ));
                assert(orows == rows_view(rows@));
            }
            assert(crate::fri::query_chain_ok(
                fri_coms,
                betas@,
                doms@,
                crate::fri::opening_rows(proof.fri.query_proofs@[q as int]@),
                crate::fri::opening_paths(proof.fri.query_proofs@[q as int]@),
                gidx,
                spec_reduced_opening(orows, valuesg, pointsg, alpha, x),
                proof.fri.final_poly,
            ));
            assert(pcs_query_ok(
                commitsg,
                dimssg,
                pointsg,
                valuesg,
                *proof,
                q as int,
                gidx,
                alpha,
                betas@,
                doms@,
                spec_round_domain(log_n, 0).point(gidx),
            )) by {
                assert(x == spec_round_domain(log_n, 0).point(gidx));
                assert(dens_ok(orows, pointsg, x));
            }
            assert(doms@ =~= domsg);
            assert(pcs_query_accepted(
                commitsg,
                dimssg,
                pointsg,
                valuesg,
                *proof,
                log_h,
                *config,
                st0g,
                q as int,
            ));
        }
        q += 1;
    }
    proof {
        assert(pcs_acceptance(
            commitsg,
            dimssg,
            pointsg,
            valuesg,
            *proof,
            log_h,
            *config,
            st0g,
        ));
    }
    Ok(())
}

} // verus!
