//! The STARK prover and verifier: a trace is committed through the
//! polynomial commitment scheme, the folded constraint polynomial is divided
//! by the vanishing polynomial of the trace domain, the quotient's chunks
//! are committed, and everything is opened at a transcript-drawn
//! out-of-domain point. The verifier replays the transcript, recomputes the
//! constraint identity at that point, and checks the openings.

use vstd::prelude::*;
use vstd::arithmetic::power2::{pow2, lemma_pow2_pos, lemma_pow2_strictly_increases};
use crate::field::{
    is_fe, all_fe, addf, subf, mulf, powf, P, add_fe, sub_fe, mul_fe, pow_fe, try_inv_fe,
};
use crate::matrix::{RowMajorMatrix, Dimensions};
use crate::symmetric::{digest_wf, spec_absorb_seq, spec_permute, DIGEST_WIDTH};
use crate::challenger::Challenger;
use crate::dft::{natural_domain, interpolate, evaluate_on, spec_two_adic_generator, eval_poly};
use crate::fri::FriConfig;
use crate::pcs::{
    PcsError, PcsProof, PcsProverData, pcs_commit, pcs_open, pcs_verify, assemble_columns,
};
use crate::air::Air;
use crate::merkle_tree::pow2_exec;

verus! {

/// The security parameters one prover/verifier pairing is fixed to.
#[derive(Clone, Copy)]
pub struct StarkConfig {
    pub fri: FriConfig,
}

impl StarkConfig {
    /// Admissible parameters.
    pub open spec fn wf(self) -> bool {
        self.fri.wf()
    }
}

/// Why proof generation was aborted.
#[derive(Clone, Copy, PartialEq, Eq, Structural, Debug)]
pub enum ProverError {
    /// The trace's shape is not committable under the configuration.
    DimensionMismatch,
    /// A run-time self-check failed inside polynomial commitment.
    CommitFailure,
    /// The quotient polynomial did not fit its chunks: the trace does not
    /// satisfy the constraints.
    QuotientDegreeTooHigh,
    /// A transcript-drawn point fell onto the evaluation domain.
    ZetaInDomain,
    /// The FRI folding phase could not be completed.
    FriFailure,
    /// No grinding witness was found under the search limit.
    ProofOfWorkFailure,
}

/// Why a proof was rejected.
#[derive(Clone, Copy, PartialEq, Eq, Structural, Debug)]
pub enum VerificationError {
    /// The proof's counts or sizes do not match the configuration.
    InvalidProofShape,
    /// The out-of-domain constraint identity does not hold: the actual
    /// rejection of an invalid trace.
    OodEvaluationMismatch,
    /// A Merkle batch opening failed to verify.
    MmcsFailure,
    /// The FRI fold replay failed.
    FriFailure,
    /// The final polynomial is not the constant the folding owes.
    FinalPolyDegreeTooHigh,
    /// The grinding witness does not meet the difficulty.
    ProofOfWorkInvalid,
    /// A transcript-drawn point fell onto the evaluation domain.
    ZetaInDomain,
}

/// The two commitments a proof carries.
pub struct Commitments {
    pub trace: Vec<u64>,
    pub quotient_chunks: Vec<u64>,
}

/// The opened evaluations a proof carries: the trace columns at `zeta` and
/// at `zeta * g`, and each quotient chunk at `zeta`.
pub struct OpenedValues {
    pub trace_local: Vec<u64>,
    pub trace_next: Vec<u64>,
    pub quotient_chunks: Vec<Vec<u64>>,
}

/// A STARK proof.
pub struct Proof {
    pub commitments: Commitments,
    pub opened_values: OpenedValues,
    pub opening_proof: PcsProof,
    pub degree_bits: usize,
}

/// The challenges the verifier derives: the constraint-folding challenge
/// after the trace commitment and the public values, and the out-of-domain
/// point after the quotient commitment.
pub open spec fn spec_challenges(
    st0: Seq<u64>,
    trace_com: Seq<u64>,
    pv: Seq<u64>,
    q_com: Seq<u64>,
) -> (u64, u64) {
    let st1 = spec_absorb_seq(spec_absorb_seq(st0, trace_com), pv);
    let alpha = st1[0];
    let st2 = spec_absorb_seq(spec_permute(st1), q_com);
    let zeta = st2[0];
    (alpha, zeta)
}

/// The out-of-domain constraint identity at `zeta`: the folded constraints,
/// evaluated on the opened trace rows with the Lagrange selectors of the
/// size-`2^log_h` trace domain, must equal the recombined quotient opening
/// times the vanishing polynomial `zeta^(2^log_h) - 1`.
pub open spec fn spec_ood_ok<A: Air>(
    air: A,
    trace_local: Seq<u64>,
    trace_next: Seq<u64>,
    q0: u64,
    q1: u64,
    pv: Seq<u64>,
    alpha: u64,
    zeta: u64,
    log_h: usize,
) -> bool {
    let h = pow2(log_h as nat);
    let g = spec_two_adic_generator(log_h);
    let zh = subf(powf(zeta, h), 1);
    let glast = powf(g, (h - 1) as nat);
    let is_first = mulf(zh, powf(subf(zeta, 1), (P - 2) as nat));
    let is_last = mulf(zh, powf(subf(zeta, glast), (P - 2) as nat));
    let is_transition = subf(zeta, glast);
    let folded = air.spec_eval(trace_local, trace_next, is_first, is_last, is_transition, alpha, pv);
    folded == mulf(addf(q0, mulf(powf(zeta, h), q1)), zh)
}

/// The opened trace values of a proof are the out-of-domain evaluations, at
/// the challenges the transcript yields for this proof, of degree-bounded
/// polynomials that interpolate the trace's columns over its natural domain;
/// and both commitments are the Merkle roots of the low-degree extensions of
/// the very polynomials that were opened.
pub open spec fn spec_openings_complete(
    st0: Seq<u64>,
    trace: RowMajorMatrix,
    pv: Seq<u64>,
    proof: Proof,
    log_blowup: usize,
) -> bool {
    let (alpha, zeta) = spec_challenges(
        st0,
        proof.commitments.trace@,
        pv,
        proof.commitments.quotient_chunks@,
    );
    let log_h = proof.degree_bits;
    let log_n = (log_h + log_blowup) as usize;
    let g = spec_two_adic_generator(log_h);
    let gl = spec_two_adic_generator(log_n);
    &&& exists|tc: Seq<Seq<u64>>, lde: RowMajorMatrix|
        {
            &&& tc.len() == trace.spec_width()
            &&& (forall|c: int| 0 <= c < tc.len() ==> (#[trigger] tc[c]).len() == pow2(log_h as nat))
            &&& (forall|c: int, i: int|
                0 <= c < tc.len() && 0 <= i < trace.spec_height()
                    ==> crate::dft::eval_poly(tc[c], mulf(1u64, powf(g, i as nat)))
                    == #[trigger] trace.spec_get(i, c))
            &&& (forall|c: int|
                0 <= c < tc.len() ==> #[trigger] proof.opened_values.trace_local@[c]
                    == crate::dft::eval_poly(tc[c], zeta))
            &&& (forall|c: int|
                0 <= c < tc.len() ==> #[trigger] proof.opened_values.trace_next@[c]
                    == crate::dft::eval_poly(tc[c], mulf(zeta, g)))
            &&& lde.wf()
            &&& lde.spec_width() == tc.len()
            &&& lde.spec_height() == pow2(log_n as nat)
            &&& (forall|i: int, c: int|
                0 <= i < lde.spec_height() && 0 <= c < tc.len() ==> #[trigger] lde.spec_get(i, c)
                    == crate::dft::eval_poly(tc[c], mulf(crate::field::GENERATOR, powf(gl, i as nat))))
            &&& proof.commitments.trace@ == crate::merkle_tree::spec_root(seq![lde], log_n as nat)
        }
    &&& exists|qc: Seq<Seq<u64>>, qlde: RowMajorMatrix|
        {
            &&& qc.len() == 2
            &&& (forall|c: int| 0 <= c < qc.len() ==> (#[trigger] qc[c]).len() == pow2(log_h as nat))
            &&& proof.opened_values.quotient_chunks@[0]@[0] == crate::dft::eval_poly(qc[0], zeta)
            &&& proof.opened_values.quotient_chunks@[1]@[0] == crate::dft::eval_poly(qc[1], zeta)
            &&& qlde.wf()
            &&& qlde.spec_width() == 2
            &&& qlde.spec_height() == pow2(log_n as nat)
            &&& (forall|i: int, c: int|
                0 <= i < qlde.spec_height() && 0 <= c < 2 ==> #[trigger] qlde.spec_get(i, c)
                    == crate::dft::eval_poly(qc[c], mulf(crate::field::GENERATOR, powf(gl, i as nat))))
            &&& proof.commitments.quotient_chunks@ == crate::merkle_tree::spec_root(
                seq![qlde],
                log_n as nat,
            )
        }
}

/// A trace the prover can commit under a configuration: its width is the
/// constraint system's, its height is a power of two whose logarithm the
/// field's two-adic structure admits, and the blown-up table fits in memory.
pub open spec fn spec_trace_committable<A: Air>(
    air: A,
    trace: RowMajorMatrix,
    config: StarkConfig,
) -> bool {
    &&& trace.spec_width() == air.spec_width()
    &&& exists|k: nat|
        1 <= k <= 23 && trace.spec_height() == pow2(k) && trace.spec_width() <= usize::MAX as int
            / #[trigger] pow2((k + config.fri.log_blowup) as nat) as int
}

/// Equal powers of two have equal exponents.
proof fn lemma_pow2_injective(a: nat, b: nat)
    requires
        pow2(a) == pow2(b),
    ensures
        a == b,
{
    if a < b {
        lemma_pow2_strictly_increases(a, b);
    }
    if b < a {
        lemma_pow2_strictly_increases(b, a);
    }
}

/// Produces a proof that `trace` satisfies `air` under `public_values`:
/// commits the trace, folds the constraints over the extended domain with a
/// transcript-drawn challenge, divides by the vanishing polynomial, commits
/// the quotient's two chunks, and opens everything at a transcript-drawn
/// point. `DimensionMismatch` comes exactly on uncommittable traces; on
/// success the opened values are the true evaluations of the committed
/// polynomials at the challenges a verifier re-derives
/// (`spec_openings_complete`).
#[verifier::rlimit(100)]
pub fn prove<A: Air>(
    config: &StarkConfig,
    air: &A,
    ch: &mut Challenger,
    trace: RowMajorMatrix,
    public_values: &Vec<u64>,
) -> (r: Result<Proof, ProverError>)
    requires
        old(ch).wf(),
        config.wf(),
        trace.wf(),
        all_fe(public_values@),
    ensures
        final(ch).wf(),
        match r {
            Ok(proof) => {
                &&& pow2(proof.degree_bits as nat) == trace.spec_height()
                &&& proof.opened_values.trace_local@.len() == trace.spec_width()
                &&& proof.opened_values.trace_next@.len() == trace.spec_width()
                &&& proof.opened_values.quotient_chunks@.len() == 2
                &&& digest_wf(proof.commitments.trace@)
                &&& digest_wf(proof.commitments.quotient_chunks@)
                // Completeness of the openings: at the very challenges the
                // verifier re-derives from this proof, the claimed trace
                // openings are the true evaluations of polynomials that
                // interpolate the committed trace.
                &&& spec_openings_complete(
                    old(ch).state@,
                    trace,
                    public_values@,
                    proof,
                    config.fri.log_blowup,
                )
            },
            Err(_) => true,
        },
        r == Err::<Proof, ProverError>(ProverError::DimensionMismatch) <==> !spec_trace_committable(
            *air,
            trace,
            *config,
        ),
{
    let w = air.width();
    if trace.width() != w {
        proof {
            assert(!spec_trace_committable(*air, trace, *config));
        }
        return Err(ProverError::DimensionMismatch);
    }
    let h = trace.height();
    let log_h = match crate::merkle_tree::log2_exact(h) {
        Some(l) => l,
        None => {
            proof {
                // The admissible exponents lie within the range the binary
                // logarithm check covered.
                assert(!spec_trace_committable(*air, trace, *config));
            }
            return Err(ProverError::DimensionMismatch);
        },
    };
    if log_h < 1 || log_h > 23 {
        proof {
            assert forall|k: nat| !(1 <= k <= 23 && trace.spec_height() == pow2(k)) by {
                if 1 <= k <= 23 && trace.spec_height() == pow2(k) {
                    lemma_pow2_injective(k, log_h as nat);
                }
            }
            assert(!spec_trace_committable(*air, trace, *config));
        }
        return Err(ProverError::DimensionMismatch);
    }
    // The blown-up table must be addressable.
    proof {
        lemma_pow2_strictly_increases((log_h + config.fri.log_blowup) as nat, 28);
        vstd::arithmetic::power2::lemma2_to64();
        vstd::arithmetic::power2::lemma_pow2_pos((log_h + config.fri.log_blowup) as nat);
    }
    let n_lde = pow2_exec(log_h + config.fri.log_blowup);
    if w > usize::MAX / n_lde {
        proof {
            assert forall|k: nat|
                !(1 <= k <= 23 && trace.spec_height() == #[trigger] pow2(k) && trace.spec_width()
                    <= usize::MAX as int / pow2((k + config.fri.log_blowup) as nat) as int) by {
                if 1 <= k <= 23 && trace.spec_height() == pow2(k) {
                    lemma_pow2_injective(k, log_h as nat);
                }
            }
            assert(!spec_trace_committable(*air, trace, *config));
        }
        return Err(ProverError::DimensionMismatch);
    }
    proof {
        assert(spec_trace_committable(*air, trace, *config)) by {
            assert(1 <= log_h as nat <= 23 && trace.spec_height() == pow2(log_h as nat)
                && trace.spec_width() <= usize::MAX as int / pow2(
                (log_h + config.fri.log_blowup) as nat,
            ) as int);
        }
    }
    let ghost trace_spec = trace;
    // Commit the trace through the PCS.
    let trace_vec: Vec<RowMajorMatrix> = vec![trace];
    let ghost tv = trace_vec@;
    proof {
        assert(tv[0] == trace_spec);
        assert(tv.len() == 1);
    }
    let (trace_com, trace_data) = match pcs_commit(trace_vec, config.fri.log_blowup) {
        Ok(p) => p,
        Err(_) => {
            return Err(ProverError::CommitFailure);
        },
    };
    proof {
        assert(tv[0].spec_height() == pow2(trace_data.log_h as nat));
        lemma_pow2_injective(trace_data.log_h as nat, log_h as nat);
    }
    ch.observe_elements(&trace_com);
    ch.observe_elements(public_values);
    let alpha = ch.sample();
    // Evaluate the folded constraints over the extended domain and divide
    // by the vanishing polynomial of the trace domain.
    let lde = &trace_data.tree.matrices[0];
    proof {
        assert(trace_data.tree.matrices@[0].spec_height() == pow2(trace_data.domain.log_n as nat));
        lemma_pow2_pos(trace_data.domain.log_n as nat);
        assert(trace_data.coeffs@[0]@.len() == tv[0].spec_width());
        assert(trace_data.coeffs@[0]@.len() == trace_data.tree.matrices@[0].spec_width());
        assert(lde.spec_width() == w);
    }
    let n = pow2_exec(trace_data.domain.log_n);
    let stride = pow2_exec(config.fri.log_blowup);
    let g_t = trace_data.trace_domain.generator;
    proof {
        lemma_pow2_pos(log_h as nat);
    }
    let glast = pow_fe(g_t, (h - 1) as u64);
    proof {
        lemma_pow2_strictly_increases(
            config.fri.log_blowup as nat,
            trace_data.domain.log_n as nat,
        );
        lemma_pow2_strictly_increases(trace_data.domain.log_n as nat, 28);
        vstd::arithmetic::power2::lemma2_to64();
    }
    let mut q_vals: Vec<u64> = Vec::new();
    let mut i: usize = 0;
    while i < n
        invariant
            spec_trace_committable(*air, trace, *config),
            ch.wf(),
            config.wf(),
            trace_data.wf(),
            air.spec_width() == w,
            lde == trace_data.tree.matrices@[0],
            trace_data.coeffs@.len() == 1,
            lde.wf(),
            lde.spec_height() == pow2(trace_data.domain.log_n as nat),
            lde.spec_width() == w,
            all_fe(public_values@),
            n == pow2(trace_data.domain.log_n as nat),
            stride == pow2(config.fri.log_blowup as nat),
            stride < n,
            n <= 0x10000000,
            h == pow2(log_h as nat),
            is_fe(alpha),
            is_fe(glast),
            i <= n,
            q_vals@.len() == i,
            all_fe(q_vals@),
        decreases n - i,
    {
        let x = trace_data.domain.point_at(i);
        let ni = if i + stride < n {
            i + stride
        } else {
            i + stride - n
        };
        let local = lde.row(i);
        let next = lde.row(ni);
        let zh = sub_fe(pow_fe(x, h as u64), 1);
        let inv_zh = match try_inv_fe(zh) {
            Some(v) => v,
            None => {
                return Err(ProverError::ZetaInDomain);
            },
        };
        let inv_first = match try_inv_fe(sub_fe(x, 1)) {
            Some(v) => v,
            None => {
                return Err(ProverError::ZetaInDomain);
            },
        };
        let inv_last = match try_inv_fe(sub_fe(x, glast)) {
            Some(v) => v,
            None => {
                return Err(ProverError::ZetaInDomain);
            },
        };
        let is_first = mul_fe(zh, inv_first);
        let is_last = mul_fe(zh, inv_last);
        let is_transition = sub_fe(x, glast);
        let folded = air.eval(&local, &next, is_first, is_last, is_transition, alpha, public_values);
        q_vals.push(mul_fe(folded, inv_zh));
        i += 1;
    }
    // Interpolate the quotient and split it into two degree-`h` chunks.
    let q_coeffs = match interpolate(&q_vals, &trace_data.domain) {
        Some(c) => c,
        None => {
            return Err(ProverError::QuotientDegreeTooHigh);
        },
    };
    proof {
        lemma_pow2_strictly_increases(log_h as nat, trace_data.domain.log_n as nat);
        vstd::arithmetic::power2::lemma_pow2_adds(log_h as nat, 1);
        vstd::arithmetic::power2::lemma2_to64();
        if config.fri.log_blowup > 1 {
            lemma_pow2_strictly_increases(
                (log_h + 1) as nat,
                (log_h + config.fri.log_blowup) as nat,
            );
        }
    }
    let qlen = q_coeffs.len();
    let mut k: usize = 2 * h;
    while k < qlen
        invariant
            spec_trace_committable(*air, trace, *config),
            ch.wf(),
            all_fe(q_coeffs@),
            qlen == q_coeffs@.len(),
            2 * h <= k <= qlen,
        decreases qlen - k,
    {
        if q_coeffs[k] != 0 {
            return Err(ProverError::QuotientDegreeTooHigh);
        }
        k += 1;
    }
    let mut q0: Vec<u64> = Vec::new();
    let mut q1: Vec<u64> = Vec::new();
    let mut j: usize = 0;
    while j < h
        invariant
            ch.wf(),
            all_fe(q_coeffs@),
            q_coeffs@.len() <= usize::MAX,
            2 * h <= q_coeffs@.len(),
            j <= h,
            q0@.len() == j,
            q1@.len() == j,
            all_fe(q0@),
            all_fe(q1@),
        decreases h - j,
    {
        q0.push(q_coeffs[j]);
        q1.push(q_coeffs[h + j]);
        j += 1;
    }
    let chunk0 = evaluate_on(&q0, &trace_data.trace_domain);
    let chunk1 = evaluate_on(&q1, &trace_data.trace_domain);
    let cols: Vec<Vec<u64>> = vec![chunk0, chunk1];
    proof {
        lemma_pow2_pos(log_h as nat);
        assert(cols@.len() * h == 2 * h);
    }
    let chunk_matrix = assemble_columns(&cols, h);
    let chunks_vec: Vec<RowMajorMatrix> = vec![chunk_matrix];
    let ghost cv = chunks_vec@;
    let (q_com, q_data) = match pcs_commit(chunks_vec, config.fri.log_blowup) {
        Ok(p) => p,
        Err(_) => {
            return Err(ProverError::CommitFailure);
        },
    };
    proof {
        assert(cv[0].spec_height() == pow2(q_data.log_h as nat));
        lemma_pow2_injective(q_data.log_h as nat, log_h as nat);
        assert(q_data.log_h == log_h);
    }
    ch.observe_elements(&q_com);
    let zeta = ch.sample();
    let zeta_next = mul_fe(zeta, g_t);
    // Open everything at zeta (and the trace also at zeta * g).
    proof {
        assert(q_data.domain == trace_data.domain);
    }
    let datas: Vec<PcsProverData> = vec![trace_data, q_data];
    let trace_points: Vec<u64> = vec![zeta, zeta_next];
    let q_points: Vec<u64> = vec![zeta];
    let points: Vec<Vec<u64>> = vec![trace_points, q_points];
    proof {
        assert(datas@[0].domain == datas@[1].domain);
        assert(forall|i: int| 0 <= i < datas@.len() ==> (#[trigger] datas@[i]).wf());
        assert(all_fe(points@[0]@));
        assert(all_fe(points@[1]@));
    }
    let (values, opening_proof) = match pcs_open(&datas, &points, &config.fri, ch) {
        Ok(p) => p,
        Err(PcsError::ZetaInDomain) => {
            return Err(ProverError::ZetaInDomain);
        },
        Err(PcsError::ProofOfWorkInvalid) => {
            return Err(ProverError::ProofOfWorkFailure);
        },
        Err(_) => {
            return Err(ProverError::FriFailure);
        },
    };
    // Assemble the proof from the opened values.
    proof {
        assert(values@[0]@.len() == datas@[0].coeffs@.len());
        assert(values@[1]@.len() == datas@[1].coeffs@.len());
        assert(values@[0]@[0]@.len() == 2);
        assert(values@[1]@[0]@.len() == 1);
        assert(values@[0]@[0]@[0]@.len() == datas@[0].coeffs@[0]@.len());
        assert(values@[0]@[0]@[1]@.len() == datas@[0].coeffs@[0]@.len());
        assert(values@[1]@[0]@[0]@.len() == datas@[1].coeffs@[0]@.len());
    }
    let trace_local = values[0][0][0].clone();
    let trace_next = values[0][0][1].clone();
    let q_row = &values[1][0][0];
    proof {
        assert(q_row@.len() == 2);
    }
    let quotient_chunks: Vec<Vec<u64>> = vec![vec![q_row[0]], vec![q_row[1]]];
    let proof_out = Proof {
        commitments: Commitments { trace: trace_com, quotient_chunks: q_com },
        opened_values: OpenedValues { trace_local, trace_next, quotient_chunks },
        opening_proof,
        degree_bits: log_h,
    };
    proof {
        let (sa, sz) = spec_challenges(
            old(ch).state@,
            proof_out.commitments.trace@,
            public_values@,
            proof_out.commitments.quotient_chunks@,
        );
        assert(alpha == sa);
        assert(zeta == sz);
        let g = spec_two_adic_generator(log_h);
        assert(g_t == g);
        let td = datas@[0];
        let qd = datas@[1];
        let tc = Seq::new(td.coeffs@[0]@.len() as nat, |c: int| td.coeffs@[0]@[c]@);
        let qc = Seq::new(qd.coeffs@[0]@.len() as nat, |c: int| qd.coeffs@[0]@[c]@);
        let lde = td.tree.matrices@[0];
        let qlde = qd.tree.matrices@[0];
        let log_n = (log_h + config.fri.log_blowup) as usize;
        let gl = spec_two_adic_generator(log_n);
        // The first witness pair: the trace's interpolants and their
        // low-degree extension under the trace commitment.
        assert(tc.len() == trace_spec.spec_width());
        assert forall|c: int, i: int|
            0 <= c < tc.len() && 0 <= i < trace_spec.spec_height() implies crate::dft::eval_poly(
            tc[c],
            mulf(1u64, powf(g, i as nat)),
        ) == #[trigger] trace_spec.spec_get(i, c) by {
            assert(eval_poly(td.coeffs@[0]@[c]@, td.trace_domain.point(i)) == tv[0].spec_get(
                i,
                c,
            ));
            assert(td.trace_domain.point(i) == mulf(1u64, powf(g, i as nat)));
        }
        assert forall|c: int| 0 <= c < tc.len() implies #[trigger] proof_out.opened_values
            .trace_local@[c] == crate::dft::eval_poly(tc[c], sz) by {
            assert(values@[0]@[0]@[0]@[c] == eval_poly(td.coeffs@[0]@[c]@, points@[0]@[0]));
        }
        assert forall|c: int| 0 <= c < tc.len() implies #[trigger] proof_out.opened_values
            .trace_next@[c] == crate::dft::eval_poly(tc[c], mulf(sz, g)) by {
            assert(values@[0]@[0]@[1]@[c] == eval_poly(td.coeffs@[0]@[c]@, points@[0]@[1]));
            assert(points@[0]@[1] == mulf(zeta, g_t));
        }
        assert forall|i: int, c: int|
            0 <= i < lde.spec_height() && 0 <= c < tc.len() implies #[trigger] lde.spec_get(i, c)
            == crate::dft::eval_poly(tc[c], mulf(crate::field::GENERATOR, powf(gl, i as nat))) by {
            assert(lde.spec_get(i, c) == eval_poly(td.coeffs@[0]@[c]@, td.domain.point(i)));
            assert(td.domain.point(i) == mulf(crate::field::GENERATOR, powf(gl, i as nat)));
        }
        assert(seq![lde] =~= td.tree.matrices@);
        assert(proof_out.commitments.trace@ == crate::merkle_tree::spec_root(
            seq![lde],
            log_n as nat,
        ));
        // The second witness pair: the quotient chunks and their extension
        // under the quotient commitment.
        assert(qc.len() == 2);
        assert(proof_out.opened_values.quotient_chunks@[0]@[0] == crate::dft::eval_poly(
            qc[0],
            sz,
        )) by {
            assert(values@[1]@[0]@[0]@[0] == eval_poly(qd.coeffs@[0]@[0]@, points@[1]@[0]));
        }
        assert(proof_out.opened_values.quotient_chunks@[1]@[0] == crate::dft::eval_poly(
            qc[1],
            sz,
        )) by {
            assert(values@[1]@[0]@[0]@[1] == eval_poly(qd.coeffs@[0]@[1]@, points@[1]@[0]));
        }
        assert forall|i: int, c: int|
            0 <= i < qlde.spec_height() && 0 <= c < 2 implies #[trigger] qlde.spec_get(i, c)
            == crate::dft::eval_poly(qc[c], mulf(crate::field::GENERATOR, powf(gl, i as nat))) by {
            assert(qlde.spec_get(i, c) == eval_poly(qd.coeffs@[0]@[c]@, qd.domain.point(i)));
            assert(qd.domain.point(i) == mulf(crate::field::GENERATOR, powf(gl, i as nat)));
        }
        assert(seq![qlde] =~= qd.tree.matrices@);
        assert(proof_out.commitments.quotient_chunks@ == crate::merkle_tree::spec_root(
            seq![qlde],
            log_n as nat,
        ));
        assert(spec_openings_complete(
            old(ch).state@,
            trace_spec,
            public_values@,
            proof_out,
            config.fri.log_blowup,
        ));
    }
    Ok(proof_out)
}

/// Everything a passing verification establishes, with both challenges and
/// the whole polynomial-commitment transcript derived from the starting
/// state: the proof has the owed shape, the out-of-domain constraint
/// identity holds at `zeta`, and every opening passes the PCS checks at the
/// transcript-drawn query indices.
pub open spec fn spec_stark_acceptance<A: Air>(
    air: A,
    config: StarkConfig,
    st0: Seq<u64>,
    proof: Proof,
    pv: Seq<u64>,
) -> bool {
    let (alpha, zeta) = spec_challenges(
        st0,
        proof.commitments.trace@,
        pv,
        proof.commitments.quotient_chunks@,
    );
    let log_h = proof.degree_bits;
    let n = pow2((log_h + config.fri.log_blowup) as nat);
    let g = spec_two_adic_generator(log_h);
    let st1 = spec_absorb_seq(spec_absorb_seq(st0, proof.commitments.trace@), pv);
    let st2 = spec_absorb_seq(spec_permute(st1), proof.commitments.quotient_chunks@);
    let st_pcs = spec_permute(st2);
    let tl = proof.opened_values.trace_local@;
    let tn = proof.opened_values.trace_next@;
    let q0 = proof.opened_values.quotient_chunks@[0]@[0];
    let q1 = proof.opened_values.quotient_chunks@[1]@[0];
    let h = pow2(log_h as nat);
    &&& 1 <= log_h <= 23
    &&& tl.len() == air.spec_width()
    &&& tn.len() == air.spec_width()
    &&& proof.opened_values.quotient_chunks@.len() == 2
    &&& proof.opened_values.quotient_chunks@[0]@.len() == 1
    &&& proof.opened_values.quotient_chunks@[1]@.len() == 1
    &&& all_fe(tl)
    &&& all_fe(tn)
    &&& all_fe(proof.opened_values.quotient_chunks@[0]@)
    &&& all_fe(proof.opened_values.quotient_chunks@[1]@)
    &&& proof.commitments.trace@.len() == DIGEST_WIDTH
    &&& proof.commitments.quotient_chunks@.len() == DIGEST_WIDTH
    &&& all_fe(proof.commitments.trace@)
    &&& all_fe(proof.commitments.quotient_chunks@)
    // The selector denominators at zeta carry checked Fermat inverses, and
    // the trace domain's defining identities pass their run-time checks.
    &&& crate::dft::spec_domain_constructible(log_h, 1)
    &&& crate::field::invertible_f(subf(zeta, 1))
    &&& crate::field::invertible_f(subf(zeta, powf(g, (h - 1) as nat)))
    &&& spec_ood_ok(air, tl, tn, q0, q1, pv, alpha, zeta, log_h)
    &&& crate::pcs::pcs_acceptance(
        seq![proof.commitments.trace@, proof.commitments.quotient_chunks@],
        seq![
            seq![(Dimensions { width: air.spec_width() as usize, height: n as usize })],
            seq![(Dimensions { width: 2, height: n as usize })],
        ],
        seq![seq![zeta, mulf(zeta, g)], seq![zeta]],
        seq![seq![seq![tl, tn]], seq![seq![seq![q0, q1]]]],
        proof.opening_proof,
        log_h,
        config.fri,
        st_pcs,
    )
}

/// Recomputes the out-of-domain constraint identity from opened values.
/// `Ok` exactly when the folded constraints at `zeta` equal the recombined
/// quotient opening times the vanishing polynomial (unless a selector
/// denominator was not invertible, reported as `ZetaInDomain`).
fn check_ood<A: Air>(
    air: &A,
    ov: &OpenedValues,
    pv: &Vec<u64>,
    alpha: u64,
    zeta: u64,
    log_h: usize,
) -> (r: Result<(), VerificationError>)
    requires
        ov.trace_local@.len() == air.spec_width(),
        ov.trace_next@.len() == air.spec_width(),
        all_fe(ov.trace_local@),
        all_fe(ov.trace_next@),
        all_fe(pv@),
        ov.quotient_chunks@.len() == 2,
        ov.quotient_chunks@[0]@.len() == 1,
        ov.quotient_chunks@[1]@.len() == 1,
        all_fe(ov.quotient_chunks@[0]@),
        all_fe(ov.quotient_chunks@[1]@),
        is_fe(alpha),
        is_fe(zeta),
        1 <= log_h <= 23,
    ensures
        r == Ok::<(), VerificationError>(()) <==> {
            &&& crate::dft::spec_domain_constructible(log_h, 1)
            &&& crate::field::invertible_f(subf(zeta, 1))
            &&& crate::field::invertible_f(subf(
                zeta,
                powf(spec_two_adic_generator(log_h), (pow2(log_h as nat) - 1) as nat),
            ))
            &&& spec_ood_ok(
                *air,
                ov.trace_local@,
                ov.trace_next@,
                ov.quotient_chunks@[0]@[0],
                ov.quotient_chunks@[1]@[0],
                pv@,
                alpha,
                zeta,
                log_h,
            )
        },
        r == Err::<(), VerificationError>(VerificationError::OodEvaluationMismatch)
            ==> !spec_ood_ok(
            *air,
            ov.trace_local@,
            ov.trace_next@,
            ov.quotient_chunks@[0]@[0],
            ov.quotient_chunks@[1]@[0],
            pv@,
            alpha,
            zeta,
            log_h,
        ),
        r is Err ==> (r == Err::<(), VerificationError>(VerificationError::OodEvaluationMismatch)
            || r == Err::<(), VerificationError>(VerificationError::ZetaInDomain)),
{
    proof {
        lemma_pow2_pos(log_h as nat);
        lemma_pow2_strictly_increases(log_h as nat, 28);
        vstd::arithmetic::power2::lemma2_to64();
    }
    let h = pow2_exec(log_h);
    let trace_dom = match natural_domain(log_h) {
        Some(d) => d,
        None => {
            return Err(VerificationError::ZetaInDomain);
        },
    };
    let g_t = trace_dom.generator;
    let zh = sub_fe(pow_fe(zeta, h as u64), 1);
    let glast = pow_fe(g_t, (h - 1) as u64);
    let inv_first = match try_inv_fe(sub_fe(zeta, 1)) {
        Some(v) => v,
        None => {
            return Err(VerificationError::ZetaInDomain);
        },
    };
    let inv_last = match try_inv_fe(sub_fe(zeta, glast)) {
        Some(v) => v,
        None => {
            return Err(VerificationError::ZetaInDomain);
        },
    };
    let is_first = mul_fe(zh, inv_first);
    let is_last = mul_fe(zh, inv_last);
    let is_transition = sub_fe(zeta, glast);
    let folded = air.eval(
        &ov.trace_local,
        &ov.trace_next,
        is_first,
        is_last,
        is_transition,
        alpha,
        pv,
    );
    let q0 = ov.quotient_chunks[0][0];
    let q1 = ov.quotient_chunks[1][0];
    let quotient_zeta = add_fe(q0, mul_fe(pow_fe(zeta, h as u64), q1));
    let rhs = mul_fe(quotient_zeta, zh);
    proof {
        let sh = pow2(log_h as nat);
        let sg = spec_two_adic_generator(log_h);
        let szh = subf(powf(zeta, sh), 1);
        assert(zh == szh);
        let sglast = powf(sg, (sh - 1) as nat);
        assert(glast == sglast);
        assert(is_first == mulf(szh, powf(subf(zeta, 1), (P - 2) as nat)));
        assert(is_last == mulf(szh, powf(subf(zeta, sglast), (P - 2) as nat)));
        assert(is_transition == subf(zeta, sglast));
        assert(folded == air.spec_eval(
            ov.trace_local@,
            ov.trace_next@,
            is_first,
            is_last,
            is_transition,
            alpha,
            pv@,
        ));
        assert(rhs == mulf(addf(q0, mulf(powf(zeta, sh), q1)), szh));
    }
    if folded != rhs {
        proof {
            assert(!spec_ood_ok(
                *air,
                ov.trace_local@,
                ov.trace_next@,
                q0,
                q1,
                pv@,
                alpha,
                zeta,
                log_h,
            ));
        }
        return Err(VerificationError::OodEvaluationMismatch);
    }
    Ok(())
}

/// Checks a proof: replays the transcript to re-derive the challenges,
/// recomputes the folded constraints at the out-of-domain point from the
/// opened values and checks the quotient identity, then checks every
/// opening against the commitments through the PCS. Success is only
/// returned for proofs the acceptance predicate admits
/// (`spec_stark_acceptance`): anything outside it is rejected.
pub fn verify<A: Air>(
    config: &StarkConfig,
    air: &A,
    ch: &mut Challenger,
    proof: &Proof,
    public_values: &Vec<u64>,
) -> (r: Result<(), VerificationError>)
    requires
        old(ch).wf(),
        config.wf(),
        all_fe(public_values@),
    ensures
        final(ch).wf(),
        r == Ok::<(), VerificationError>(()) <==> spec_stark_acceptance(
            *air,
            *config,
            old(ch).state@,
            *proof,
            public_values@,
        ),
        r == Err::<(), VerificationError>(VerificationError::OodEvaluationMismatch) ==> {
            let (alpha, zeta) = spec_challenges(
                old(ch).state@,
                proof.commitments.trace@,
                public_values@,
                proof.commitments.quotient_chunks@,
            );
            !spec_ood_ok(
                *air,
                proof.opened_values.trace_local@,
                proof.opened_values.trace_next@,
                proof.opened_values.quotient_chunks@[0]@[0],
                proof.opened_values.quotient_chunks@[1]@[0],
                public_values@,
                alpha,
                zeta,
                proof.degree_bits,
            )
        },
{
    let ghost sacc = spec_stark_acceptance(*air, *config, old(ch).state@, *proof, public_values@);
    let w = air.width();
    let log_h = proof.degree_bits;
    if log_h < 1 || log_h > 23 {
        proof {
            assert(!sacc);
        }
        return Err(VerificationError::InvalidProofShape);
    }
    // Shape and range checks on everything the proof claims.
    if proof.opened_values.trace_local.len() != w || proof.opened_values.trace_next.len() != w {
        proof {
            assert(!sacc);
        }
        return Err(VerificationError::InvalidProofShape);
    }
    if proof.opened_values.quotient_chunks.len() != 2 {
        proof {
            assert(!sacc);
        }
        return Err(VerificationError::InvalidProofShape);
    }
    if proof.opened_values.quotient_chunks[0].len() != 1
        || proof.opened_values.quotient_chunks[1].len() != 1 {
        proof {
            assert(!sacc);
        }
        return Err(VerificationError::InvalidProofShape);
    }
    if !all_below_p(&proof.opened_values.trace_local) || !all_below_p(
        &proof.opened_values.trace_next,
    ) {
        proof {
            assert(!sacc);
        }
        return Err(VerificationError::InvalidProofShape);
    }
    if !all_below_p(&proof.opened_values.quotient_chunks[0]) || !all_below_p(
        &proof.opened_values.quotient_chunks[1],
    ) {
        proof {
            assert(!sacc);
        }
        return Err(VerificationError::InvalidProofShape);
    }
    if proof.commitments.trace.len() != DIGEST_WIDTH || proof.commitments.quotient_chunks.len()
        != DIGEST_WIDTH {
        proof {
            assert(!sacc);
        }
        return Err(VerificationError::InvalidProofShape);
    }
    if !all_below_p(&proof.commitments.trace) || !all_below_p(&proof.commitments.quotient_chunks) {
        proof {
            assert(!sacc);
        }
        return Err(VerificationError::InvalidProofShape);
    }
    // Replay the transcript.
    ch.observe_elements(&proof.commitments.trace);
    ch.observe_elements(public_values);
    let alpha = ch.sample();
    ch.observe_elements(&proof.commitments.quotient_chunks);
    let zeta = ch.sample();
    let ghost st_pcs = ch.state@;
    proof {
        let (sa, sz) = spec_challenges(
            old(ch).state@,
            proof.commitments.trace@,
            public_values@,
            proof.commitments.quotient_chunks@,
        );
        assert(alpha == sa);
        assert(zeta == sz);
        let st1 = spec_absorb_seq(
            spec_absorb_seq(old(ch).state@, proof.commitments.trace@),
            public_values@,
        );
        let st2 = spec_absorb_seq(spec_permute(st1), proof.commitments.quotient_chunks@);
        assert(st_pcs == spec_permute(st2));
    }
    // The out-of-domain constraint identity.
    let ood = check_ood(air, &proof.opened_values, public_values, alpha, zeta, log_h);
    match ood {
        Ok(()) => {
            proof {
                assert(ood->Ok_0 == ());
                assert(ood == Ok::<(), VerificationError>(()));
            }
        },
        Err(e) => {
            proof {
                assert(!(ood == Ok::<(), VerificationError>(())));
                assert(!sacc);
            }
            return Err(e);
        },
    }
    // Check the openings against the commitments through the PCS.
    proof {
        lemma_pow2_strictly_increases(log_h as nat, 28);
        vstd::arithmetic::power2::lemma2_to64();
    }
    let trace_dom = match natural_domain(log_h) {
        Some(d) => d,
        None => {
            proof {
                assert(!crate::dft::spec_domain_constructible(log_h, 1));
                assert(!sacc);
            }
            return Err(VerificationError::ZetaInDomain);
        },
    };
    let n = pow2_exec(log_h + config.fri.log_blowup);
    let zeta_next = mul_fe(zeta, trace_dom.generator);
    let commits: Vec<Vec<u64>> = vec![
        proof.commitments.trace.clone(),
        proof.commitments.quotient_chunks.clone(),
    ];
    let dims_trace: Vec<Dimensions> = vec![Dimensions { width: w, height: n }];
    let dims_q: Vec<Dimensions> = vec![Dimensions { width: 2, height: n }];
    let dimss: Vec<Vec<Dimensions>> = vec![dims_trace, dims_q];
    let trace_points: Vec<u64> = vec![zeta, zeta_next];
    let q_points: Vec<u64> = vec![zeta];
    let points: Vec<Vec<u64>> = vec![trace_points, q_points];
    let q0 = proof.opened_values.quotient_chunks[0][0];
    let q1 = proof.opened_values.quotient_chunks[1][0];
    let trace_vals: Vec<Vec<u64>> = vec![
        proof.opened_values.trace_local.clone(),
        proof.opened_values.trace_next.clone(),
    ];
    let q_vals: Vec<Vec<u64>> = vec![vec![q0, q1]];
    let values: Vec<Vec<Vec<Vec<u64>>>> = vec![vec![trace_vals], vec![q_vals]];
    proof {
        // The argument vectors the PCS sees are exactly the sequences the
        // acceptance predicate speaks of.
        let n2 = pow2((log_h + config.fri.log_blowup) as nat);
        let g = spec_two_adic_generator(log_h);
        let tl = proof.opened_values.trace_local@;
        let tn = proof.opened_values.trace_next@;
        assert(commits@.map_values(|c: Vec<u64>| c@) =~~= seq![
            proof.commitments.trace@,
            proof.commitments.quotient_chunks@,
        ]);
        assert(dimss@.map_values(|d: Vec<Dimensions>| d@) =~~= seq![
            seq![(Dimensions { width: air.spec_width() as usize, height: n2 as usize })],
            seq![(Dimensions { width: 2, height: n2 as usize })],
        ]);
        assert(crate::pcs::points_view(points@) =~~= seq![
            seq![zeta, mulf(zeta, g)],
            seq![zeta],
        ]);
        assert(crate::pcs::values_view(values@) =~~= seq![
            seq![seq![tl, tn]],
            seq![seq![seq![q0, q1]]],
        ]);
    }
    let pr = pcs_verify(
        &commits,
        &dimss,
        &points,
        &values,
        &proof.opening_proof,
        log_h,
        &config.fri,
        ch,
    );
    proof {
        if pr is Ok {
            assert(pr->Ok_0 == ());
            assert(pr == Ok::<(), PcsError>(()));
            assert(sacc);
        } else {
            assert(!(pr == Ok::<(), PcsError>(())));
            assert(!sacc);
        }
    }
    match pr {
        Ok(()) => Ok(()),
        Err(PcsError::MmcsFailure) => Err(VerificationError::MmcsFailure),
        Err(PcsError::ProofOfWorkInvalid) => Err(VerificationError::ProofOfWorkInvalid),
        Err(PcsError::ZetaInDomain) => Err(VerificationError::ZetaInDomain),
        Err(PcsError::InvalidProofShape) => Err(VerificationError::InvalidProofShape),
        Err(PcsError::FinalPolyDegreeTooHigh) => Err(VerificationError::FinalPolyDegreeTooHigh),
        Err(_) => Err(VerificationError::FriFailure),
    }
}

/// Whether every entry is a canonical field element, at run time.
fn all_below_p(v: &Vec<u64>) -> (r: bool)
    ensures
        r <==> all_fe(v@),
{
    let mut i: usize = 0;
    while i < v.len()
        invariant
            i <= v@.len(),
            forall|j: int| 0 <= j < i ==> is_fe(#[trigger] v@[j]),
        decreases v@.len() - i,
    {
        if v[i] >= P {
            return false;
        }
        i += 1;
    }
    true
}

} // verus!
