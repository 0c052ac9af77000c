//! The FRI low-degree protocol: the prover repeatedly commits a codeword's
//! paired halves, draws a folding challenge, and halves the codeword, until
//! only a constant remains; a proof-of-work witness and per-query openings
//! let the verifier replay every fold.

use vstd::prelude::*;
use vstd::arithmetic::power2::{pow2, lemma_pow2_unfold, lemma_pow2_pos, lemma_pow2_strictly_increases};
use crate::field::{
    is_fe, all_fe, addf, subf, mulf, negf, fmul, fneg, INV2, P, add_fe, sub_fe, mul_fe,
};
use crate::dft::eval_poly;
use crate::matrix::{RowMajorMatrix, Dimensions};
use crate::merkle_tree::{MerkleTree, MmcsError, commit, verify_batch, height_is_pow2_le};
use crate::symmetric::{digest_wf, spec_absorb, DIGEST_WIDTH};
use crate::challenger::Challenger;
use crate::dft::TwoAdicDomain;

verus! {

/// The FRI security parameters: the blow-up of the committed domain over
/// the polynomial degree, the number of query rounds, and the grinding
/// difficulty.
#[derive(Clone, Copy)]
pub struct FriConfig {
    pub log_blowup: usize,
    pub num_queries: usize,
    pub proof_of_work_bits: usize,
}

impl FriConfig {
    /// Admissible parameters. The bounds are machine limits, not tuning:
    /// traces reach heights up to `2^23`, and `log_blowup <= 4` keeps every
    /// evaluation domain inside the field's order-`2^27` two-adic subgroup;
    /// the prover searches at most `GRIND_LIMIT == 2^20` nonces, so more
    /// grinding bits than that could not reliably be ground.
    pub open spec fn wf(self) -> bool {
        &&& 1 <= self.log_blowup <= 4
        &&& 1 <= self.num_queries
        &&& self.proof_of_work_bits <= 20
    }
}

/// Why a FRI proof was rejected or could not be produced.
#[derive(Clone, Copy, PartialEq, Eq, Structural, Debug)]
pub enum FriError {
    /// The proof's counts or sizes do not match the configuration.
    InvalidProofShape,
    /// A Merkle batch opening failed to verify.
    CommitPhaseMmcsError,
    /// The final polynomial is not the constant the folding owes.
    FinalPolyDegreeTooHigh,
    /// The grinding witness does not meet the difficulty.
    ProofOfWorkInvalid,
}

/// One fold step on a pair of codeword values at `x` and `-x`:
/// `(e0 + e1)/2 + beta * (e0 - e1)/(2x)`, the evaluation of the folded
/// polynomial at `x^2`.
pub open spec fn fold_value(e0: u64, e1: u64, beta: u64, x_inv: u64) -> u64 {
    mulf(INV2, addf(addf(e0, e1), mulf(beta, mulf(x_inv, subf(e0, e1)))))
}

/// One fold step at run time.
pub fn fold_row(e0: u64, e1: u64, beta: u64, x_inv: u64) -> (r: u64)
    requires
        is_fe(e0),
        is_fe(e1),
        is_fe(beta),
        is_fe(x_inv),
    ensures
        is_fe(r),
        r == fold_value(e0, e1, beta, x_inv),
{
    let s = add_fe(e0, e1);
    let d = sub_fe(e0, e1);
    let t = mul_fe(beta, mul_fe(x_inv, d));
    mul_fe(INV2, add_fe(s, t))
}

/// The whole folded codeword: entry `r` folds the values at `r` and
/// `r + n/2` with the inverse of point `r`.
pub open spec fn spec_fold_codeword(v: Seq<u64>, beta: u64, d: TwoAdicDomain) -> Seq<u64> {
    Seq::new(
        (v.len() / 2) as nat,
        |r: int| fold_value(v[r], v[r + v.len() / 2], beta, d.point_inv(r)),
    )
}

/// Folds a codeword over its domain.
pub fn fold_codeword(v: &Vec<u64>, beta: u64, d: &TwoAdicDomain) -> (out: Vec<u64>)
    requires
        all_fe(v@),
        is_fe(beta),
        d.wf(),
        d.log_n >= 1,
        v@.len() == d.spec_n(),
    ensures
        out@ == spec_fold_codeword(v@, beta, *d),
        out@.len() == v@.len() / 2,
        all_fe(out@),
{
    proof {
        lemma_pow2_unfold(d.log_n as nat);
    }
    let n = d.size();
    let half = n / 2;
    let mut out: Vec<u64> = Vec::new();
    let mut r: usize = 0;
    while r < half
        invariant
            all_fe(v@),
            is_fe(beta),
            d.wf(),
            v@.len() == d.spec_n(),
            n == d.spec_n(),
            half == n / 2,
            2 * half == n,
            r <= half,
            out@.len() == r,
            all_fe(out@),
            forall|rr: int|
                0 <= rr < r ==> out@[rr] == fold_value(
                    v@[rr],
                    v@[rr + v@.len() / 2],
                    beta,
                    d.point_inv(rr),
                ),
        decreases half - r,
    {
        let x_inv = d.point_inv_at(r);
        out.push(fold_row(v[r], v[r + half], beta, x_inv));
        r += 1;
    }
    proof {
        assert(out@ =~= spec_fold_codeword(v@, beta, *d));
    }
    out
}

/// Pairs a codeword into a two-column matrix for commitment: row `r` holds
/// the values at `r` and `r + n/2`, so one opening serves one fold.
pub fn pair_codeword(v: &Vec<u64>) -> (m: RowMajorMatrix)
    requires
        all_fe(v@),
        v@.len() >= 2,
        v@.len() % 2 == 0,
    ensures
        m.wf(),
        m.spec_width() == 2,
        m.spec_height() == v@.len() / 2,
        forall|r: int|
            0 <= r < v@.len() / 2 ==> m.spec_row(r) =~= seq![v@[r], v@[r + v@.len() / 2]],
{
    let n = v.len();
    let half = n / 2;
    let mut vals: Vec<u64> = Vec::new();
    let mut r: usize = 0;
    while r < half
        invariant
            all_fe(v@),
            n == v@.len(),
            half == n / 2,
            2 * half == n,
            r <= half,
            vals@.len() == 2 * r,
            all_fe(vals@),
            forall|rr: int| 0 <= rr < r ==> #[trigger] vals@[2 * rr] == v@[rr],
            forall|rr: int| 0 <= rr < r ==> #[trigger] vals@[2 * rr + 1] == v@[rr + half],
        decreases half - r,
    {
        vals.push(v[r]);
        vals.push(v[r + half]);
        proof {
            assert(vals@[2 * r as int] == v@[r as int]);
            assert(vals@[2 * r as int + 1] == v@[r as int + half]);
        }
        r += 1;
    }
    let m = match RowMajorMatrix::new(vals, 2) {
        Some(m) => m,
        None => {
            proof {
                assert(false);
            }
            unreached()
        },
    };
    proof {
        assert forall|rr: int| 0 <= rr < v@.len() / 2 implies m.spec_row(rr) =~= seq![
            v@[rr],
            v@[rr + v@.len() / 2],
        ] by {
            assert(m.spec_row(rr)[0] == m.values@[2 * rr]);
            assert(m.spec_row(rr)[1] == m.values@[2 * rr + 1]);
        }
    }
    m
}

/// Whether a grinding witness meets the difficulty from a given transcript
/// state: after absorbing it, the next `bits`-bit sample is zero.
pub open spec fn pow_check(st: Seq<u64>, witness: u64, bits: nat) -> bool {
    spec_absorb(st, witness)[0] as int % pow2(bits) as int == 0
}

/// How many nonces the prover will try before giving up grinding.
pub const GRIND_LIMIT: u64 = 1048576;

/// Searches for the smallest grinding witness under the limit, observes it,
/// and consumes the zero sample.
pub fn grind(ch: &mut Challenger, bits: usize) -> (r: Result<u64, FriError>)
    requires
        old(ch).wf(),
        bits <= 20,
    ensures
        final(ch).wf(),
        match r {
            Ok(w) => {
                &&& is_fe(w)
                &&& pow_check(old(ch).state@, w, bits as nat)
                &&& forall|m: u64| m < w ==> !pow_check(old(ch).state@, m, bits as nat)
                &&& final(ch).state@ == crate::symmetric::spec_permute(
                    spec_absorb(old(ch).state@, w),
                )
            },
            Err(e) => {
                &&& e == FriError::ProofOfWorkInvalid
                &&& forall|m: u64|
                    m < GRIND_LIMIT ==> !pow_check(old(ch).state@, m, bits as nat)
                &&& final(ch).state@ == old(ch).state@
            },
        },
{
    let mut w: u64 = 0;
    while w < GRIND_LIMIT
        invariant
            ch.wf(),
            ch.state@ == old(ch).state@,
            bits <= 20,
            w <= GRIND_LIMIT,
            forall|m: u64| m < w ==> !pow_check(old(ch).state@, m, bits as nat),
        decreases GRIND_LIMIT - w,
    {
        let mut probe = Challenger { state: ch.state.clone() };
        proof {
            assert(probe.state@ == ch.state@);
        }
        probe.observe(w);
        let sample = probe.sample_bits(bits);
        if sample == 0 {
            ch.observe(w);
            let z = ch.sample_bits(bits);
            return Ok(w);
        }
        w += 1;
    }
    Err(FriError::ProofOfWorkInvalid)
}

/// The opening of one commit-phase round at one query: the paired row and
/// its Merkle path.
pub struct CommitPhaseOpening {
    pub opened_row: Vec<u64>,
    pub path: Vec<Vec<u64>>,
}

/// A FRI proof: one commitment per folding round, per-query openings of
/// every round, the final constant polynomial, and the grinding witness.
pub struct FriProof {
    pub commit_phase_commits: Vec<Vec<u64>>,
    pub query_proofs: Vec<Vec<CommitPhaseOpening>>,
    pub final_poly: u64,
    pub pow_witness: u64,
}

/// One verified fold round at one query: the claimed row opens against the
/// round's commitment at the reduced index, and the claimed value sits in
/// the row at the column the index selects.
pub open spec fn query_round_ok(
    commit: Seq<u64>,
    d: TwoAdicDomain,
    idx: int,
    value: u64,
    row: Seq<u64>,
    path: Seq<Seq<u64>>,
) -> bool {
    let half = d.spec_n() as int / 2;
    let r = idx % half;
    let col = idx / half;
    &&& 0 <= idx < d.spec_n()
    &&& row.len() == 2
    &&& crate::merkle_tree::shape_ok(
        seq![Dimensions { width: 2, height: half as usize }],
        r,
        seq![row],
        path,
    )
    &&& crate::merkle_tree::recomputed_root(r, seq![row], path) == commit
    &&& row[col] == value
}

/// The whole fold chain at one query: every round opens and matches, each
/// round's fold feeds the next, and the last value is the final polynomial.
pub open spec fn query_chain_ok(
    commits: Seq<Seq<u64>>,
    betas: Seq<u64>,
    doms: Seq<TwoAdicDomain>,
    rows: Seq<Seq<u64>>,
    paths: Seq<Seq<Seq<u64>>>,
    idx: int,
    value: u64,
    final_poly: u64,
) -> bool
    decreases commits.len(),
{
    if commits.len() == 0 {
        value == final_poly
    } else {
        let d = doms[0];
        let half = d.spec_n() as int / 2;
        let r = idx % half;
        &&& query_round_ok(commits[0], d, idx, value, rows[0], paths[0])
        &&& query_chain_ok(
            commits.drop_first(),
            betas.drop_first(),
            doms.drop_first(),
            rows.drop_first(),
            paths.drop_first(),
            r,
            fold_value(rows[0][0], rows[0][1], betas[0], d.point_inv(r)),
            final_poly,
        )
    }
}

/// The view of one query's openings: the rows and the paths.
pub open spec fn opening_rows(os: Seq<CommitPhaseOpening>) -> Seq<Seq<u64>> {
    os.map_values(|o: CommitPhaseOpening| o.opened_row@)
}

/// The view of one query's Merkle paths.
pub open spec fn opening_paths(os: Seq<CommitPhaseOpening>) -> Seq<Seq<Seq<u64>>> {
    os.map_values(|o: CommitPhaseOpening| o.path@.map_values(|p: Vec<u64>| p@))
}

/// Checks one query's fold chain against the round commitments: replays
/// every fold from the opened pairs and compares the end against the final
/// polynomial.
pub fn verify_query(
    commits: &Vec<Vec<u64>>,
    betas: &Vec<u64>,
    doms: &Vec<TwoAdicDomain>,
    openings: &Vec<CommitPhaseOpening>,
    index: usize,
    value: u64,
    final_poly: u64,
) -> (r: Result<(), FriError>)
    requires
        commits@.len() == betas@.len(),
        commits@.len() == doms@.len(),
        commits@.len() == openings@.len(),
        forall|k: int| 0 <= k < commits@.len() ==> (#[trigger] commits@[k])@.len() == DIGEST_WIDTH,
        forall|k: int|
            0 <= k < doms@.len() ==> (#[trigger] doms@[k]).wf() && doms@[k].log_n >= 1,
        all_fe(betas@),
        is_fe(value),
        is_fe(final_poly),
    ensures
        r == Ok::<(), FriError>(()) <==> query_chain_ok(
            commits@.map_values(|c: Vec<u64>| c@),
            betas@,
            doms@,
            opening_rows(openings@),
            opening_paths(openings@),
            index as int,
            value,
            final_poly,
        ),
{
    let ghost commitsv = commits@.map_values(|c: Vec<u64>| c@);
    let ghost rowsv = opening_rows(openings@);
    let ghost pathsv = opening_paths(openings@);
    let mut idx: usize = index;
    let mut val: u64 = value;
    let mut k: usize = 0;
    proof {
        assert(commitsv.skip(0) =~= commitsv);
        assert(betas@.skip(0) =~= betas@);
        assert(doms@.skip(0) =~= doms@);
        assert(rowsv.skip(0) =~= rowsv);
        assert(pathsv.skip(0) =~= pathsv);
    }
    while k < commits.len()
        invariant
            commits@.len() == betas@.len(),
            commits@.len() == doms@.len(),
            commits@.len() == openings@.len(),
            forall|kk: int|
                0 <= kk < commits@.len() ==> (#[trigger] commits@[kk])@.len() == DIGEST_WIDTH,
            forall|kk: int|
                0 <= kk < doms@.len() ==> (#[trigger] doms@[kk]).wf() && doms@[kk].log_n >= 1,
            all_fe(betas@),
            is_fe(val),
            is_fe(final_poly),
            commitsv == commits@.map_values(|c: Vec<u64>| c@),
            rowsv == opening_rows(openings@),
            pathsv == opening_paths(openings@),
            k <= commits@.len(),
            query_chain_ok(
                commitsv,
                betas@,
                doms@,
                rowsv,
                pathsv,
                index as int,
                value,
                final_poly,
            ) <==> query_chain_ok(
                commitsv.skip(k as int),
                betas@.skip(k as int),
                doms@.skip(k as int),
                rowsv.skip(k as int),
                pathsv.skip(k as int),
                idx as int,
                val,
                final_poly,
            ),
        decreases commits@.len() - k,
    {
        let d = &doms[k];
        proof {
            lemma_pow2_unfold(d.log_n as nat);
            lemma_pow2_pos((d.log_n - 1) as nat);
        }
        let n = d.size();
        let half = n / 2;
        let r = idx % half;
        let col = idx / half;
        let opening = &openings[k];
        proof {
            assert(rowsv.skip(k as int)[0] == rowsv[k as int]);
            assert(rowsv[k as int] == opening.opened_row@);
            assert(pathsv.skip(k as int)[0] == pathsv[k as int]);
            assert(pathsv[k as int] == opening.path@.map_values(|p: Vec<u64>| p@));
            assert(commitsv.skip(k as int)[0] == commitsv[k as int]);
            assert(doms@.skip(k as int)[0] == doms@[k as int]);
        }
        if opening.opened_row.len() != 2 {
            return Err(FriError::InvalidProofShape);
        }
        if idx >= n {
            // The claimed index exceeds the round's domain.
            return Err(FriError::InvalidProofShape);
        }
        proof {
            assert(col <= 1) by {
                vstd::arithmetic::div_mod::lemma_multiply_divide_lt(
                    idx as int,
                    half as int,
                    2,
                );
            }
        }
        let dims_vec: Vec<Dimensions> = vec![Dimensions { width: 2, height: half }];
        let opened_vec: Vec<Vec<u64>> = vec![opening.opened_row.clone()];
        proof {
            assert(dims_vec@ =~= seq![Dimensions { width: 2, height: half }]);
            assert(opened_vec@.map_values(|v: Vec<u64>| v@) =~= seq![opening.opened_row@]);
        }
        let vb = verify_batch(&commits[k], &dims_vec, r, &opened_vec, &opening.path);
        proof {
            assert(commitsv[k as int] == commits@[k as int]@);
            assert(opened_vec@.map_values(|v: Vec<u64>| v@) =~~= seq![rowsv[k as int]]);
            assert(opening.path@.map_values(|v: Vec<u64>| v@) =~~= pathsv[k as int]);
        }
        match vb {
            Ok(()) => {},
            Err(_) => {
                return Err(FriError::CommitPhaseMmcsError);
            },
        }
        let e0 = opening.opened_row[0];
        let e1 = opening.opened_row[1];
        let claimed = if col == 0 {
            e0
        } else {
            e1
        };
        if claimed != val {
            return Err(FriError::InvalidProofShape);
        }
        proof {
            // The opened row passed the Merkle check, so its entries are
            // canonical field elements.
            assert(all_fe(opening.opened_row@));
        }
        let x_inv = d.point_inv_at(r);
        let next_val = fold_row(e0, e1, betas[k], x_inv);
        proof {
            assert(vb->Ok_0 == ());
            assert(vb == Ok::<(), MmcsError>(()));
            assert(crate::merkle_tree::recomputed_root(
                r as int,
                seq![rowsv[k as int]],
                pathsv[k as int],
            ) == commitsv[k as int]);
            assert(commitsv.skip(k as int).drop_first() =~= commitsv.skip(k + 1));
            assert(betas@.skip(k as int).drop_first() =~= betas@.skip(k + 1));
            assert(doms@.skip(k as int).drop_first() =~= doms@.skip(k + 1));
            assert(rowsv.skip(k as int).drop_first() =~= rowsv.skip(k + 1));
            assert(pathsv.skip(k as int).drop_first() =~= pathsv.skip(k + 1));
            assert(query_round_ok(
                commitsv[k as int],
                doms@[k as int],
                idx as int,
                val,
                rowsv[k as int],
                pathsv[k as int],
            ));
        }
        idx = r;
        val = next_val;
        k += 1;
    }
    proof {
        assert(commitsv.skip(commitsv.len() as int) =~= Seq::<Seq<u64>>::empty());
    }
    if val == final_poly {
        Ok(())
    } else {
        Err(FriError::FinalPolyDegreeTooHigh)
    }
}

/// Everything one commit-phase round establishes: the round's domain is a
/// sound halving domain, the committed matrix pairs the codeword's halves,
/// and the commitment is the tree's root.
pub open spec fn commit_round_ok(
    tree: MerkleTree,
    dom: TwoAdicDomain,
    com: Seq<u64>,
    cw: Seq<u64>,
) -> bool {
    &&& dom.wf()
    &&& dom.log_n >= 1
    &&& dom.generator == crate::dft::spec_two_adic_generator(dom.log_n)
    &&& cw.len() == dom.spec_n()
    &&& tree.wf()
    &&& tree.matrices@.len() == 1
    &&& tree.log_height == dom.log_n - 1
    &&& tree.matrices@[0].wf()
    &&& tree.matrices@[0].spec_width() == 2
    &&& tree.matrices@[0].spec_height() == cw.len() / 2
    &&& (forall|r: int|
        0 <= r < cw.len() / 2 ==> #[trigger] tree.matrices@[0].spec_get(r, 0) == cw[r]
            && tree.matrices@[0].spec_get(r, 1) == cw[r + cw.len() / 2])
    &&& com == tree.spec_commitment()
    &&& digest_wf(com)
}

/// One fold round of the prover: commit the paired codeword, observe the
/// commitment, draw the folding challenge, and fold.
fn fold_round(cur: Vec<u64>, dom: &TwoAdicDomain, ch: &mut Challenger) -> (r: Result<
    (Vec<u64>, MerkleTree, Vec<u64>, u64, TwoAdicDomain),
    FriError,
>)
    requires
        old(ch).wf(),
        dom.wf(),
        dom.log_n >= 1,
        dom.generator == crate::dft::spec_two_adic_generator(dom.log_n),
        all_fe(cur@),
        cur@.len() == dom.spec_n(),
    ensures
        final(ch).wf(),
        match r {
            Ok((folded, tree, com, beta, next_dom)) => {
                &&& folded@ == spec_fold_codeword(cur@, beta, *dom)
                &&& folded@.len() == cur@.len() / 2
                &&& all_fe(folded@)
                &&& is_fe(beta)
                &&& commit_round_ok(tree, *dom, com@, cur@)
                &&& next_dom.wf()
                &&& next_dom.log_n == dom.log_n - 1
                &&& next_dom.shift == mulf(dom.shift, dom.shift)
                &&& next_dom.generator == crate::dft::spec_two_adic_generator(next_dom.log_n)
            },
            Err(e) => e == FriError::FinalPolyDegreeTooHigh,
        },
{
    proof {
        lemma_pow2_unfold(dom.log_n as nat);
        lemma_pow2_pos((dom.log_n - 1) as nat);
    }
    let paired = pair_codeword(&cur);
    let mats: Vec<RowMajorMatrix> = vec![paired];
    proof {
        assert(forall|j: int| 0 <= j < mats@.len() ==> (#[trigger] mats@[j]).wf());
    }
    let (com, tree) = match commit(mats) {
        Ok(p) => p,
        Err(_) => {
            proof {
                // A single power-of-two-height matrix always commits.
                assert(height_is_pow2_le(pow2((dom.log_n - 1) as nat) as int, 31)) by {
                    assert((dom.log_n - 1) as nat <= 31);
                }
                assert(false);
            }
            unreached()
        },
    };
    proof {
        // The single paired matrix has height `2^(log_n - 1)`, so the
        // tree's height logarithm is exactly that.
        let th = tree.log_height as nat;
        assert(pow2(th) == pow2((dom.log_n - 1) as nat)) by {
            assert(tree.matrices@[0].spec_height() == pow2((dom.log_n - 1) as nat));
            assert(exists|j: int|
                0 <= j < tree.matrices@.len() && (#[trigger] tree.matrices@[j]).spec_height()
                    == pow2(tree.log_height as nat));
        }
        if th < (dom.log_n - 1) as nat {
            lemma_pow2_strictly_increases(th, (dom.log_n - 1) as nat);
        }
        if th > (dom.log_n - 1) as nat {
            lemma_pow2_strictly_increases((dom.log_n - 1) as nat, th);
        }
        assert(tree.log_height == dom.log_n - 1);
    }
    proof {
        let m = tree.matrices@[0];
        assert forall|rr: int| 0 <= rr < cur@.len() / 2 implies #[trigger] m.spec_get(rr, 0)
            == cur@[rr] && m.spec_get(rr, 1) == cur@[rr + cur@.len() / 2] by {
            assert(m.spec_row(rr) =~= seq![cur@[rr], cur@[rr + cur@.len() / 2]]);
            assert(m.spec_row(rr)[0] == m.values@[rr * 2 + 0]);
            assert(m.spec_row(rr)[1] == m.values@[rr * 2 + 1]);
        }
    }
    ch.observe_elements(&com);
    let beta = ch.sample();
    let folded = fold_codeword(&cur, beta, dom);
    let next_dom = match crate::dft::coset_domain(dom.log_n - 1, mul_fe(dom.shift, dom.shift)) {
        Some(d) => d,
        None => {
            return Err(FriError::FinalPolyDegreeTooHigh);
        },
    };
    Ok((folded, tree, com, beta, next_dom))
}

/// The prover's commit phase: fold until the blow-up floor, committing each
/// paired codeword and drawing each folding challenge from the transcript.
/// Returns the per-round commitments and retained trees, the per-round
/// domains, the folding challenges, the final constant, and, as ghost data,
/// the chain of codewords.
#[verifier::rlimit(100)]
pub fn commit_phase(
    codeword: Vec<u64>,
    d0: &TwoAdicDomain,
    log_blowup: usize,
    ch: &mut Challenger,
) -> (r: Result<
    (Vec<Vec<u64>>, Vec<MerkleTree>, Vec<TwoAdicDomain>, Vec<u64>, u64, Ghost<Seq<Seq<u64>>>),
    FriError,
>)
    requires
        old(ch).wf(),
        all_fe(codeword@),
        d0.wf(),
        d0.generator == crate::dft::spec_two_adic_generator(d0.log_n),
        codeword@.len() == d0.spec_n(),
        1 <= log_blowup <= d0.log_n,
    ensures
        final(ch).wf(),
        match r {
            Ok((commits, trees, doms, betas, final_poly, chain)) => {
                let rounds = d0.log_n - log_blowup;
                &&& commits@.len() == rounds
                &&& trees@.len() == rounds
                &&& doms@.len() == rounds
                &&& betas@.len() == rounds
                &&& chain@.len() == rounds + 1
                &&& chain@[0] == codeword@
                &&& is_fe(final_poly)
                &&& all_fe(betas@)
                &&& forall|k: int|
                    0 <= k < rounds ==> (#[trigger] doms@[k]).log_n == d0.log_n - k
                &&& forall|k: int|
                    1 <= k < rounds ==> (#[trigger] doms@[k]).shift == mulf(
                        doms@[k - 1].shift,
                        doms@[k - 1].shift,
                    )
                &&& rounds > 0 ==> doms@[0] == *d0
                &&& forall|k: int|
                    1 <= k <= rounds ==> (#[trigger] chain@[k]) == spec_fold_codeword(
                        chain@[k - 1],
                        betas@[k - 1],
                        doms@[k - 1],
                    )
                &&& forall|k: int|
                    0 <= k < rounds ==> commit_round_ok(
                        #[trigger] trees@[k],
                        doms@[k],
                        commits@[k]@,
                        chain@[k],
                    )
                // The last codeword is everywhere the final constant.
                &&& forall|i: int|
                    0 <= i < chain@[rounds as int].len() ==> (#[trigger] chain@[rounds as int][i])
                        == final_poly
            },
            Err(e) => e == FriError::FinalPolyDegreeTooHigh,
        },
{
    let mut cur: Vec<u64> = codeword;
    let mut dom: TwoAdicDomain = TwoAdicDomain {
        log_n: d0.log_n,
        generator: d0.generator,
        shift: d0.shift,
        shift_inv: d0.shift_inv,
        n_inv: d0.n_inv,
    };
    let mut commits: Vec<Vec<u64>> = Vec::new();
    let mut trees: Vec<MerkleTree> = Vec::new();
    let mut doms: Vec<TwoAdicDomain> = Vec::new();
    let mut betas: Vec<u64> = Vec::new();
    let ghost orig = cur@;
    let ghost mut chain_vec: Seq<Seq<u64>> = seq![orig];
    let ghost rounds = (d0.log_n - log_blowup) as int;
    let mut step: usize = 0;
    proof {
        assert(dom =~= *d0);
    }
    while step < d0.log_n - log_blowup
        invariant
            ch.wf(),
            d0.wf(),
            1 <= log_blowup <= d0.log_n,
            rounds == d0.log_n - log_blowup,
            step <= rounds,
            dom.wf(),
            dom.log_n == d0.log_n - step,
            dom.log_n >= log_blowup,
            dom.generator == crate::dft::spec_two_adic_generator(dom.log_n),
            step == 0 ==> dom == *d0,
            step > 0 ==> dom.shift == mulf(doms@[step - 1].shift, doms@[step - 1].shift),
            all_fe(cur@),
            cur@.len() == dom.spec_n(),
            commits@.len() == step,
            trees@.len() == step,
            doms@.len() == step,
            betas@.len() == step,
            all_fe(betas@),
            chain_vec.len() == step + 1,
            chain_vec[0] == orig,
            chain_vec[step as int] == cur@,
            forall|k: int| 0 <= k < step ==> (#[trigger] doms@[k]).log_n == d0.log_n - k,
            forall|k: int|
                1 <= k < step ==> (#[trigger] doms@[k]).shift == mulf(
                    doms@[k - 1].shift,
                    doms@[k - 1].shift,
                ),
            step > 0 ==> doms@[0] == *d0,
            forall|k: int|
                1 <= k <= step ==> (#[trigger] chain_vec[k]) == spec_fold_codeword(
                    chain_vec[k - 1],
                    betas@[k - 1],
                    doms@[k - 1],
                ),
            forall|k: int|
                0 <= k < step ==> commit_round_ok(
                    #[trigger] trees@[k],
                    doms@[k],
                    commits@[k]@,
                    chain_vec[k],
                ),
        decreases d0.log_n - log_blowup - step,
    {
        let (folded, tree, com, beta, next_dom) = match fold_round(cur, &dom, ch) {
            Ok(tuple) => tuple,
            Err(e) => {
                return Err(e);
            },
        };
        commits.push(com);
        trees.push(tree);
        doms.push(dom);
        betas.push(beta);
        proof {
            chain_vec = chain_vec.push(folded@);
            lemma_pow2_unfold(dom.log_n as nat);
        }
        cur = folded;
        dom = next_dom;
        step += 1;
    }
    // The folded codeword must now be a constant: the final polynomial.
    proof {
        lemma_pow2_pos(dom.log_n as nat);
    }
    let final_poly = cur[0];
    let mut i: usize = 1;
    while i < cur.len()
        invariant
            ch.wf(),
            all_fe(cur@),
            cur@.len() >= 1,
            1 <= i <= cur@.len(),
            final_poly == cur@[0],
            forall|j: int| 0 <= j < i ==> cur@[j] == final_poly,
        decreases cur@.len() - i,
    {
        if cur[i] != final_poly {
            return Err(FriError::FinalPolyDegreeTooHigh);
        }
        i += 1;
    }
    Ok((commits, trees, doms, betas, final_poly, Ghost(chain_vec)))
}

/// The coefficients of the folded polynomial: with `f(x) = fe(x^2) +
/// x * fo(x^2)`, the fold is `fe + beta * fo`, so coefficient `j` combines
/// the even coefficient `2j` and the odd coefficient `2j + 1`.
pub open spec fn fold_coeffs(c: Seq<u64>, beta: u64) -> Seq<u64> {
    Seq::new((c.len() / 2) as nat, |j: int| addf(c[2 * j], mulf(beta, c[2 * j + 1])))
}

/// The fold formula, as one reduction of an integer expression.
proof fn lemma_fold_value_int(e0: u64, e1: u64, beta: u64, x_inv: u64)
    ensures
        fold_value(e0, e1, beta, x_inv) as int == (INV2 as int * ((e0 + e1) + beta * (x_inv * (
        e0 - e1)))) % (P as int),
{
    let pp = P as int;
    let d = (e0 - e1) % pp;
    crate::field::lemma_fe_range(e0 as int, e1 as int);
    assert(mulf(x_inv, subf(e0, e1)) as int == (x_inv * (e0 - e1)) % pp) by {
        vstd::arithmetic::div_mod::lemma_mul_mod_noop_right(x_inv as int, e0 - e1, pp);
        crate::field::lemma_fe_range(x_inv as int, d);
    }
    assert(mulf(beta, mulf(x_inv, subf(e0, e1))) as int == (beta * (x_inv * (e0 - e1))) % pp) by {
        vstd::arithmetic::div_mod::lemma_mul_mod_noop_right(beta as int, x_inv * (e0 - e1), pp);
        crate::field::lemma_fe_range(beta as int, (x_inv * (e0 - e1)) % pp);
    }
    assert(addf(addf(e0, e1), mulf(beta, mulf(x_inv, subf(e0, e1)))) as int == ((e0 + e1) + beta
        * (x_inv * (e0 - e1))) % pp) by {
        crate::field::lemma_fadd_noop(e0 + e1, beta * (x_inv * (e0 - e1)));
        crate::field::lemma_fe_range(e0 as int, e1 as int);
    }
    vstd::arithmetic::div_mod::lemma_mul_mod_noop_right(
        INV2 as int,
        (e0 + e1) + beta * (x_inv * (e0 - e1)),
        pp,
    );
    crate::field::lemma_fe_range(
        INV2 as int,
        ((e0 + e1) + beta * (x_inv * (e0 - e1))) % pp,
    );
}

/// Folding the evaluations of a polynomial at `x` and `-x` gives the folded
/// polynomial's evaluation at `x^2`.
#[verifier::rlimit(100)]
proof fn lemma_fold_even_odd(c: Seq<u64>, beta: u64, x: u64, x_inv: u64)
    requires
        c.len() % 2 == 0,
        fmul(x as int, x_inv as int) == 1,
    ensures
        fold_value(eval_poly(c, x), eval_poly(c, negf(x)), beta, x_inv) == eval_poly(
            fold_coeffs(c, beta),
            mulf(x, x),
        ),
    decreases c.len(),
{
    let pp = P as int;
    let xx = mulf(x, x);
    let xi = x_inv as int;
    let xn = x as int;
    let b = beta as int;
    let i2 = INV2 as int;
    crate::field::lemma_inv2();
    if c.len() == 0 {
        assert(eval_poly(c, x) == 0);
        assert(fold_coeffs(c, beta).len() == 0);
        lemma_fold_value_int(0, 0, beta, x_inv);
        assert((i2 * ((0 + 0) + b * (xi * (0 - 0)))) % pp == 0) by {
            assert(i2 * ((0 + 0) + b * (xi * (0 - 0))) == 0) by (nonlinear_arith);
        }
    } else {
        let rest = c.skip(2);
        assert(c.drop_first().drop_first() =~= rest);
        assert(rest.len() % 2 == 0);
        let nx = negf(x);
        let c0 = c[0] as int;
        let c1 = c[1] as int;
        let rp_u = eval_poly(rest, x);
        let rm_u = eval_poly(rest, nx);
        let rp = rp_u as int;
        let rm = rm_u as int;
        let ep = eval_poly(c, x);
        let em = eval_poly(c, nx);
        crate::field::lemma_fe_range(0, xn);
        assert(eval_poly(c.drop_first(), x) == addf(c[1], mulf(x, rp_u))) by {
            assert(c.drop_first()[0] == c[1]);
            assert(c.drop_first().drop_first() == rest);
        }
        assert(eval_poly(c.drop_first(), nx) == addf(c[1], mulf(nx, rm_u))) by {
            assert(c.drop_first()[0] == c[1]);
            assert(c.drop_first().drop_first() == rest);
        }
        // Normal form of the evaluation at x.
        assert(ep as int == (c0 + (xn * c1 + xn * (xn * rp))) % pp) by {
            assert(ep == addf(c[0], mulf(x, addf(c[1], mulf(x, rp_u)))));
            assert(mulf(x, rp_u) as int == (xn * rp) % pp) by {
                crate::field::lemma_fe_range(xn, rp);
            }
            assert(addf(c[1], mulf(x, rp_u)) as int == (c1 + xn * rp) % pp) by {
                crate::field::lemma_fadd_noop(c1, xn * rp);
            }
            assert(mulf(x, addf(c[1], mulf(x, rp_u))) as int == (xn * (c1 + xn * rp)) % pp) by {
                vstd::arithmetic::div_mod::lemma_mul_mod_noop_right(xn, c1 + xn * rp, pp);
                crate::field::lemma_fe_range(xn, (c1 + xn * rp) % pp);
            }
            assert(xn * (c1 + xn * rp) == xn * c1 + xn * (xn * rp)) by (nonlinear_arith);
            assert(eval_poly(c.drop_first(), x) == addf(c[1], mulf(x, rp_u)));
            crate::field::lemma_fadd_noop(c0, xn * c1 + xn * (xn * rp));
            crate::field::lemma_fe_range(c0, (xn * c1 + xn * (xn * rp)) % pp);
        }
        // Normal form of the evaluation at -x: the sign flips on the odd
        // part only.
        let nxi = fneg(xn);
        assert(em as int == (c0 + ((0 - xn * c1) + xn * (xn * rm))) % pp) by {
            assert(em == addf(c[0], mulf(nx, addf(c[1], mulf(nx, rm_u)))));
            assert(nx as int == (0 - xn) % pp);
            assert(mulf(nx, rm_u) as int == ((0 - xn) * rm) % pp) by {
                vstd::arithmetic::div_mod::lemma_mul_mod_noop_left(0 - xn, rm, pp);
                crate::field::lemma_fe_range((0 - xn) % pp, rm);
            }
            assert(addf(c[1], mulf(nx, rm_u)) as int == (c1 + (0 - xn) * rm) % pp) by {
                crate::field::lemma_fadd_noop(c1, (0 - xn) * rm);
            }
            assert(mulf(nx, addf(c[1], mulf(nx, rm_u))) as int == ((0 - xn) * (c1 + (0 - xn) * rm))
                % pp) by {
                vstd::arithmetic::div_mod::lemma_mul_mod_noop_left(0 - xn, c1 + (0 - xn) * rm, pp);
                vstd::arithmetic::div_mod::lemma_mul_mod_noop_right(
                    (0 - xn),
                    c1 + (0 - xn) * rm,
                    pp,
                );
                vstd::arithmetic::div_mod::lemma_mul_mod_noop_general(
                    0 - xn,
                    c1 + (0 - xn) * rm,
                    pp,
                );
                crate::field::lemma_fe_range((0 - xn) % pp, (c1 + (0 - xn) * rm) % pp);
            }
            assert((0 - xn) * (c1 + (0 - xn) * rm) == (0 - xn * c1) + xn * (xn * rm))
                by (nonlinear_arith);
            crate::field::lemma_fadd_noop(c0, (0 - xn * c1) + xn * (xn * rm));
            crate::field::lemma_fe_range(c0, ((0 - xn * c1) + xn * (xn * rm)) % pp);
        }
        // The left side, reduced to one integer expression.
        lemma_fold_value_int(ep, em, beta, x_inv);
        let epi = c0 + (xn * c1 + xn * (xn * rp));
        let emi = c0 + ((0 - xn * c1) + xn * (xn * rm));
        assert((ep + em) % pp == (2 * c0 + (xn * xn) * (rp + rm)) % pp) by {
            crate::field::lemma_fadd_noop(epi, emi % pp);
            crate::field::lemma_fadd_noop(epi, emi);
            assert(epi + emi == 2 * c0 + (xn * xn) * (rp + rm)) by (nonlinear_arith)
                requires
                    epi == c0 + (xn * c1 + xn * (xn * rp)),
                    emi == c0 + ((0 - xn * c1) + xn * (xn * rm)),
            ;
        }
        assert((ep - em) % pp == (2 * (xn * c1) + (xn * xn) * (rp - rm)) % pp) by {
            crate::field::lemma_fsub_noop(epi, emi % pp);
            crate::field::lemma_fsub_noop(epi, emi);
            assert(epi - emi == 2 * (xn * c1) + (xn * xn) * (rp - rm)) by (nonlinear_arith)
                requires
                    epi == c0 + (xn * c1 + xn * (xn * rp)),
                    emi == c0 + ((0 - xn * c1) + xn * (xn * rm)),
            ;
        }
        // Eliminate the inverse: x_inv pairs against one factor x.
        let dd = 2 * (xn * c1) + (xn * xn) * (rp - rm);
        assert((xi * (ep - em)) % pp == ((2 * c1) + xn * (rp - rm)) % pp) by {
            vstd::arithmetic::div_mod::lemma_mul_mod_noop_right(xi, ep - em, pp);
            vstd::arithmetic::div_mod::lemma_mul_mod_noop_right(xi, dd, pp);
            assert(xi * dd == (2 * c1) * (xn * xi) + (xn * (rp - rm)) * (xn * xi))
                by (nonlinear_arith)
                requires
                    dd == 2 * (xn * c1) + (xn * xn) * (rp - rm),
            ;
            assert(((2 * c1) * (xn * xi)) % pp == (2 * c1) % pp) by {
                crate::field::lemma_fmul_cancel(2 * c1, xn, xi);
            }
            assert(((xn * (rp - rm)) * (xn * xi)) % pp == (xn * (rp - rm)) % pp) by {
                crate::field::lemma_fmul_cancel(xn * (rp - rm), xn, xi);
            }
            vstd::arithmetic::div_mod::lemma_add_mod_noop(
                (2 * c1) * (xn * xi),
                (xn * (rp - rm)) * (xn * xi),
                pp,
            );
            vstd::arithmetic::div_mod::lemma_add_mod_noop(2 * c1, xn * (rp - rm), pp);
        }
        let h_sum = (xn * xn) * (rp + rm) + b * (xn * (rp - rm));
        assert(fold_value(ep, em, beta, x_inv) as int == (i2 * (2 * (c0 + b * c1) + h_sum)) % pp)
            by {
            // Push the two congruences through the outer sum and products.
            assert((b * (xi * (ep - em))) % pp == (b * ((2 * c1) + xn * (rp - rm))) % pp) by {
                vstd::arithmetic::div_mod::lemma_mul_mod_noop_right(b, xi * (ep - em), pp);
                vstd::arithmetic::div_mod::lemma_mul_mod_noop_right(
                    b,
                    (2 * c1) + xn * (rp - rm),
                    pp,
                );
            }
            assert(((ep + em) + b * (xi * (ep - em))) % pp == ((2 * c0 + (xn * xn) * (rp + rm))
                + b * ((2 * c1) + xn * (rp - rm))) % pp) by {
                vstd::arithmetic::div_mod::lemma_add_mod_noop(ep + em, b * (xi * (ep - em)), pp);
                vstd::arithmetic::div_mod::lemma_add_mod_noop(
                    2 * c0 + (xn * xn) * (rp + rm),
                    b * ((2 * c1) + xn * (rp - rm)),
                    pp,
                );
            }
            assert((2 * c0 + (xn * xn) * (rp + rm)) + b * ((2 * c1) + xn * (rp - rm)) == 2 * (c0
                + b * c1) + h_sum) by (nonlinear_arith)
                requires
                    h_sum == (xn * xn) * (rp + rm) + b * (xn * (rp - rm)),
            ;
            vstd::arithmetic::div_mod::lemma_mul_mod_noop_right(
                i2,
                (ep + em) + b * (xi * (ep - em)),
                pp,
            );
            vstd::arithmetic::div_mod::lemma_mul_mod_noop_right(i2, 2 * (c0 + b * c1) + h_sum, pp);
        }
        // The right side: unfold the folded polynomial once and use the
        // induction hypothesis for its tail.
        lemma_fold_even_odd(rest, beta, x, x_inv);
        let fc = fold_coeffs(c, beta);
        assert(fc.len() >= 1);
        assert(fc[0] == addf(c[0], mulf(beta, c[1])));
        assert(fc.drop_first() =~= fold_coeffs(rest, beta)) by {
            assert forall|j: int| 0 <= j < fc.len() - 1 implies fc.drop_first()[j] == fold_coeffs(
                rest,
                beta,
            )[j] by {
                assert(fc.drop_first()[j] == fc[j + 1]);
                assert(rest[2 * j] == c[2 * j + 2]);
                assert(rest[2 * j + 1] == c[2 * j + 3]);
                assert(2 * (j + 1) == 2 * j + 2);
            }
        }
        let f_u = eval_poly(fold_coeffs(rest, beta), xx);
        assert(eval_poly(fc, xx) == addf(fc[0], mulf(xx, f_u)));
        assert(fold_value(rp_u, rm_u, beta, x_inv) == f_u);
        lemma_fold_value_int(rp_u, rm_u, beta, x_inv);
        let g_sum = (rp + rm) + b * (xi * (rp - rm));
        // The head coefficient.
        assert(fc[0] as int == (c0 + b * c1) % pp) by {
            crate::field::lemma_fadd_noop(c0, b * c1);
            crate::field::lemma_fe_range(b, c1);
        }
        // The tail: multiply the folded tail's value by x^2, and cancel the
        // inverse inside.
        assert(mulf(xx, f_u) as int == (i2 * h_sum) % pp) by {
            assert(xx as int == (xn * xn) % pp);
            assert(f_u as int == (i2 * g_sum) % pp);
            vstd::arithmetic::div_mod::lemma_mul_mod_noop_general(xn * xn, i2 * g_sum, pp);
            assert(((xn * xn) * (i2 * g_sum)) % pp == (i2 * ((xn * xn) * g_sum)) % pp) by {
                assert((xn * xn) * (i2 * g_sum) == i2 * ((xn * xn) * g_sum)) by (nonlinear_arith);

            }
            assert(((xn * xn) * g_sum) % pp == h_sum % pp) by {
                assert((xn * xn) * g_sum == (xn * xn) * (rp + rm) + (b * (xn * (rp - rm))) * (xn
                    * xi)) by (nonlinear_arith)
                    requires
                        g_sum == (rp + rm) + b * (xi * (rp - rm)),
                ;
                assert(((b * (xn * (rp - rm))) * (xn * xi)) % pp == (b * (xn * (rp - rm))) % pp)
                    by {
                    crate::field::lemma_fmul_cancel(b * (xn * (rp - rm)), xn, xi);
                }
                vstd::arithmetic::div_mod::lemma_add_mod_noop(
                    (xn * xn) * (rp + rm),
                    (b * (xn * (rp - rm))) * (xn * xi),
                    pp,
                );
                vstd::arithmetic::div_mod::lemma_add_mod_noop(
                    (xn * xn) * (rp + rm),
                    b * (xn * (rp - rm)),
                    pp,
                );
            }
            vstd::arithmetic::div_mod::lemma_mul_mod_noop_right(i2, (xn * xn) * g_sum, pp);
            vstd::arithmetic::div_mod::lemma_mul_mod_noop_right(i2, h_sum, pp);
        }
        // Assemble both sides.
        assert(eval_poly(fc, xx) as int == ((c0 + b * c1) + i2 * h_sum) % pp) by {
            crate::field::lemma_fadd_noop(c0 + b * c1, i2 * h_sum);
            vstd::arithmetic::div_mod::lemma_add_mod_noop(c0 + b * c1, i2 * h_sum, pp);
        }
        assert((i2 * (2 * (c0 + b * c1) + h_sum)) % pp == ((c0 + b * c1) + i2 * h_sum) % pp) by {
            assert(i2 * (2 * (c0 + b * c1) + h_sum) == (c0 + b * c1) * (2 * i2) + i2 * h_sum)
                by (nonlinear_arith);
            assert(((c0 + b * c1) * (2 * i2)) % pp == (c0 + b * c1) % pp) by {
                crate::field::lemma_fmul_cancel(c0 + b * c1, 2, i2);
            }
            vstd::arithmetic::div_mod::lemma_add_mod_noop(
                (c0 + b * c1) * (2 * i2),
                i2 * h_sum,
                pp,
            );
            vstd::arithmetic::div_mod::lemma_add_mod_noop(c0 + b * c1, i2 * h_sum, pp);
        }
        crate::field::lemma_fe_range(fold_value(ep, em, beta, x_inv) as int, 0);
    }
}

/// FRI folding consistency: if a codeword is exactly the evaluations of a
/// polynomial over a domain, then the folded codeword is exactly the
/// evaluations of the folded polynomial over the squared domain, at every
/// position.
pub proof fn lemma_fri_fold_consistency(
    c: Seq<u64>,
    v: Seq<u64>,
    beta: u64,
    d: TwoAdicDomain,
    r: int,
)
    requires
        d.wf(),
        d.log_n >= 1,
        c.len() % 2 == 0,
        v.len() == d.spec_n(),
        forall|i: int| 0 <= i < v.len() ==> #[trigger] v[i] == crate::dft::eval_poly(c, d.point(i)),
        0 <= r < d.spec_n() / 2,
    ensures
        spec_fold_codeword(v, beta, d)[r] == crate::dft::eval_poly(
            fold_coeffs(c, beta),
            mulf(d.point(r), d.point(r)),
        ),
{
    lemma_pow2_unfold(d.log_n as nat);
    let half = d.spec_n() as int / 2;
    let x = d.point(r);
    assert(v[r] == crate::dft::eval_poly(c, x));
    assert(v[r + half] == crate::dft::eval_poly(c, d.point(r + half)));
    d.lemma_point_pair(r);
    assert(d.point(r + half) == crate::field::negf(x)) by {
        crate::field::lemma_fe_range(0, x as int);
    }
    d.lemma_point_inv(r);
    assert(fmul(x as int, d.point_inv(r) as int) == 1) by {
        crate::field::lemma_fe_range(d.shift as int, crate::field::fpow(d.generator as int, r as nat));
    }
    lemma_fold_even_odd(c, beta, x, d.point_inv(r));
    assert(spec_fold_codeword(v, beta, d)[r] == fold_value(v[r], v[r + half], beta, d.point_inv(r)));
}

/// A coefficient vector whose entries from `t` on are zero: a polynomial of
/// degree below `t`.
pub open spec fn zero_tail(c: Seq<u64>, t: int) -> bool {
    forall|j: int| t <= j < c.len() ==> c[j] == 0u64
}

/// An all-zero coefficient vector evaluates to zero.
proof fn lemma_eval_all_zero(c: Seq<u64>, x: u64)
    requires
        zero_tail(c, 0),
    ensures
        eval_poly(c, x) == 0u64,
    decreases c.len(),
{
    if c.len() == 0 {
    } else {
        lemma_eval_all_zero(c.drop_first(), x);
        assert(c[0] == 0u64);
        assert(mulf(x, 0u64) == 0u64) by {
            assert((x as int) * 0 == 0);
        }
        assert(addf(0u64, 0u64) == 0u64);
    }
}

/// A degree-zero polynomial evaluates to its constant term everywhere.
proof fn lemma_eval_constant(c: Seq<u64>, x: u64)
    requires
        c.len() >= 1,
        zero_tail(c, 1),
        is_fe(c[0]),
    ensures
        eval_poly(c, x) == c[0],
    decreases c.len(),
{
    lemma_eval_all_zero(c.drop_first(), x);
    assert(mulf(x, 0u64) == 0u64) by {
        assert((x as int) * 0 == 0);
    }
    assert(addf(c[0], 0u64) == c[0]) by {
        vstd::arithmetic::div_mod::lemma_small_mod(c[0] as nat, P as nat);
    }
}

/// Folding halves the degree bound: a zero tail from `2t` gives the folded
/// coefficients a zero tail from `t`.
proof fn lemma_fold_coeffs_zero_tail(c: Seq<u64>, beta: u64, t: int)
    requires
        0 <= t,
        zero_tail(c, 2 * t),
    ensures
        zero_tail(fold_coeffs(c, beta), t),
{
    let fc = fold_coeffs(c, beta);
    assert forall|j: int| t <= j < fc.len() implies fc[j] == 0u64 by {
        assert(c[2 * j] == 0u64);
        assert(c[2 * j + 1] == 0u64);
        assert(mulf(beta, 0u64) == 0u64) by {
            assert((beta as int) * 0 == 0);
        }
        assert(addf(0u64, 0u64) == 0u64);
    }
}

/// The folded coefficients stay canonical.
proof fn lemma_fold_coeffs_fe(c: Seq<u64>, beta: u64)
    ensures
        all_fe(fold_coeffs(c, beta)),
{
    let fc = fold_coeffs(c, beta);
    assert forall|j: int| 0 <= j < fc.len() implies is_fe(#[trigger] fc[j]) by {
        crate::field::lemma_fe_range(c[2 * j] as int, mulf(beta, c[2 * j + 1]) as int);
    }
}

/// FRI low-degree completeness, at the fold-chain level: take a codeword
/// that is exactly the evaluations of a polynomial of degree below
/// `2^rounds`-th of its length, and fold it `rounds` times along a chain of
/// halving domains (each with the canonical generator and the squared
/// shift). The last codeword in the chain is constant, so an honest prover's
/// final polynomial check always passes.
pub proof fn lemma_fri_chain_constant(
    c: Seq<u64>,
    chain: Seq<Seq<u64>>,
    betas: Seq<u64>,
    doms: Seq<TwoAdicDomain>,
    rounds: int,
)
    requires
        rounds >= 1,
        chain.len() == rounds + 1,
        betas.len() == rounds,
        doms.len() == rounds,
        forall|k: int|
            0 <= k < rounds ==> (#[trigger] doms[k]).wf() && doms[k].log_n >= 1 && doms[k].log_n
                == doms[0].log_n - k && doms[k].generator == crate::dft::spec_two_adic_generator(
                doms[k].log_n,
            ),
        forall|k: int|
            1 <= k < rounds ==> (#[trigger] doms[k]).shift == mulf(
                doms[k - 1].shift,
                doms[k - 1].shift,
            ),
        chain[0].len() == doms[0].spec_n(),
        c.len() == chain[0].len(),
        forall|k: int|
            1 <= k <= rounds ==> #[trigger] chain[k] == spec_fold_codeword(
                chain[k - 1],
                betas[k - 1],
                doms[k - 1],
            ),
        forall|i: int|
            0 <= i < chain[0].len() ==> #[trigger] chain[0][i] == eval_poly(c, doms[0].point(i)),
        zero_tail(c, pow2(rounds as nat) as int),
    ensures
        forall|i: int|
            0 <= i < chain[rounds].len() ==> #[trigger] chain[rounds][i] == chain[rounds][0],
    decreases rounds,
{
    let d = doms[0];
    let n = d.spec_n() as int;
    lemma_pow2_unfold(d.log_n as nat);
    lemma_pow2_pos((d.log_n - 1) as nat);
    let c1 = fold_coeffs(c, betas[0]);
    lemma_fold_coeffs_fe(c, betas[0]);
    assert(chain[1] == spec_fold_codeword(chain[0], betas[0], d));
    assert(chain[1].len() == n / 2);
    // One fold: the next codeword evaluates the folded coefficients at the
    // squared points.
    assert forall|r: int| 0 <= r < n / 2 implies #[trigger] chain[1][r] == eval_poly(
        c1,
        mulf(d.point(r), d.point(r)),
    ) by {
        lemma_fri_fold_consistency(c, chain[0], betas[0], d, r);
    }
    vstd::arithmetic::power2::lemma_pow2_unfold(rounds as nat);
    vstd::arithmetic::power2::lemma2_to64();
    lemma_fold_coeffs_zero_tail(c, betas[0], pow2((rounds - 1) as nat) as int);
    if rounds == 1 {
        // The folded coefficients are a constant polynomial.
        assert(c1.len() == c.len() / 2);
        assert(zero_tail(c1, 1));
        assert(c1.len() >= 1);
        assert forall|i: int| 0 <= i < chain[1].len() implies #[trigger] chain[1][i]
            == chain[1][0] by {
            lemma_eval_constant(c1, mulf(d.point(i), d.point(i)));
            lemma_eval_constant(c1, mulf(d.point(0), d.point(0)));
        }
    } else {
        // The next codeword sits on the successor domain; recurse.
        let d2 = doms[1];
        assert forall|r: int| 0 <= r < n / 2 implies #[trigger] chain[1][r] == eval_poly(
            c1,
            d2.point(r),
        ) by {
            crate::dft::lemma_point_square(d, d2, r);
        }
        lemma_fri_chain_constant(
            c1,
            chain.drop_first(),
            betas.drop_first(),
            doms.drop_first(),
            rounds - 1,
        );
        assert forall|i: int| 0 <= i < chain[rounds].len() implies #[trigger] chain[rounds][i]
            == chain[rounds][0] by {
            assert(chain.drop_first()[rounds - 1] == chain[rounds]);
        }
    }
}

/// FRI query completeness: for an honest fold chain whose rounds were
/// committed as paired matrices, every query index has openings (the
/// committed rows and their Merkle paths) that satisfy the verifier's whole
/// fold-chain check, ending at the final constant.
#[verifier::rlimit(100)]
pub proof fn lemma_fri_query_completeness(
    chain: Seq<Seq<u64>>,
    betas: Seq<u64>,
    doms: Seq<TwoAdicDomain>,
    trees: Seq<MerkleTree>,
    commits: Seq<Seq<u64>>,
    final_poly: u64,
    idx: int,
    rounds: int,
)
    requires
        rounds >= 0,
        chain.len() == rounds + 1,
        betas.len() == rounds,
        doms.len() == rounds,
        trees.len() == rounds,
        commits.len() == rounds,
        forall|k: int|
            0 <= k < rounds ==> commit_round_ok(
                #[trigger] trees[k],
                doms[k],
                commits[k],
                chain[k],
            ),
        forall|k: int|
            1 <= k <= rounds ==> #[trigger] chain[k] == spec_fold_codeword(
                chain[k - 1],
                betas[k - 1],
                doms[k - 1],
            ),
        0 <= idx < chain[0].len(),
        forall|i: int|
            0 <= i < chain[rounds].len() ==> #[trigger] chain[rounds][i] == final_poly,
    ensures
        exists|rows: Seq<Seq<u64>>, paths: Seq<Seq<Seq<u64>>>|
            query_chain_ok(commits, betas, doms, rows, paths, idx, chain[0][idx], final_poly),
    decreases rounds,
{
    if rounds == 0 {
        let rows = Seq::<Seq<u64>>::empty();
        let paths = Seq::<Seq<Seq<u64>>>::empty();
        assert(query_chain_ok(commits, betas, doms, rows, paths, idx, chain[0][idx], final_poly));
    } else {
        let d = doms[0];
        let tree = trees[0];
        assert(commit_round_ok(tree, d, commits[0], chain[0]));
        let m = tree.matrices@[0];
        let n = chain[0].len() as int;
        let half = d.spec_n() as int / 2;
        lemma_pow2_unfold(d.log_n as nat);
        lemma_pow2_pos((d.log_n - 1) as nat);
        assert(half == pow2((d.log_n - 1) as nat));
        assert(m.spec_height() == half);
        assert(pow2(tree.log_height as nat) == half as nat);
        let r = idx % half;
        let col = idx / half;
        vstd::arithmetic::div_mod::lemma_mod_bound(idx, half);
        vstd::arithmetic::div_mod::lemma_fundamental_div_mod(idx, half);
        vstd::arithmetic::div_mod::lemma_multiply_divide_lt(idx, half, 2);
        vstd::arithmetic::div_mod::lemma_div_pos_is_pos(idx, half);
        let ms = tree.matrices@;
        let row = m.spec_row(r);
        let path = crate::merkle_tree::spec_path(ms, tree.log_height as nat, r);
        // The Merkle opening of the committed pair row verifies.
        crate::merkle_tree::lemma_mmcs_round_trip(ms, tree.log_height as nat, r);
        m.lemma_rows_wf(r);
        // The one-matrix batch's declared dimensions and opened rows take
        // the shapes the verifier checks.
        vstd::arithmetic::power2::lemma2_to64();
        if (tree.log_height as nat) < 31 {
            lemma_pow2_strictly_increases(tree.log_height as nat, 31);
        }
        assert(crate::merkle_tree::dims_of(ms) =~= seq![
            Dimensions { width: 2, height: half as usize },
        ]);
        assert(crate::merkle_tree::spec_opened_rows(ms, tree.log_height as nat, r) =~= seq![row])
            by {
            // With one full-height matrix the stride is one.
            vstd::arithmetic::div_mod::lemma_div_by_self(half);
            vstd::arithmetic::div_mod::lemma_div_basics(r);
            assert(crate::merkle_tree::opened_row(ms[0], tree.log_height as nat, r) == m.spec_row(
                r / (pow2(tree.log_height as nat) as int / m.spec_height()),
            ));
        }
        assert(query_round_ok(commits[0], d, idx, chain[0][idx], row, path)) by {
            assert(crate::merkle_tree::recomputed_root(r, seq![row], path) == commits[0]);
            assert(crate::merkle_tree::shape_ok(
                seq![Dimensions { width: 2, height: half as usize }],
                r,
                seq![row],
                path,
            ));
            assert(row[0] == m.spec_get(r, 0));
            assert(row[1] == m.spec_get(r, 1));
            assert(row[col] == chain[0][idx]) by {
                assert(idx == half * col + r);
                if col == 0 {
                    assert(half * 0 == 0) by (nonlinear_arith);
                    assert(idx == r);
                } else {
                    assert(col == 1);
                    assert(half * 1 == half) by (nonlinear_arith);
                    assert(idx == r + half);
                }
            }
        }
        // The fold feeds the next round with the next codeword's value.
        let next_val = fold_value(row[0], row[1], betas[0], d.point_inv(r));
        assert(next_val == chain[1][r]) by {
            assert(row[0] == m.spec_get(r, 0));
            assert(row[1] == m.spec_get(r, 1));
            assert(m.spec_get(r, 0) == chain[0][r]);
            assert(m.spec_get(r, 1) == chain[0][r + half]);
            assert(chain[1] == spec_fold_codeword(chain[0], betas[0], doms[0]));
            assert(chain[0].len() / 2 == half);
            assert(chain[1][r] == fold_value(
                chain[0][r],
                chain[0][r + half],
                betas[0],
                d.point_inv(r),
            ));
        }
        // Recurse on the remaining rounds.
        let chain2 = chain.drop_first();
        let betas2 = betas.drop_first();
        let doms2 = doms.drop_first();
        let trees2 = trees.drop_first();
        let commits2 = commits.drop_first();
        assert forall|k: int| 0 <= k < rounds - 1 implies commit_round_ok(
            #[trigger] trees2[k],
            doms2[k],
            commits2[k],
            chain2[k],
        ) by {
            assert(trees2[k] == trees[k + 1]);
            assert(commit_round_ok(trees[k + 1], doms[k + 1], commits[k + 1], chain[k + 1]));
        }
        assert forall|k: int| 1 <= k <= rounds - 1 implies #[trigger] chain2[k]
            == spec_fold_codeword(chain2[k - 1], betas2[k - 1], doms2[k - 1]) by {
            assert(chain2[k] == chain[k + 1]);
            assert(chain[k + 1] == spec_fold_codeword(chain[k], betas[k], doms[k]));
        }
        assert(chain2[0].len() == half) by {
            assert(chain2[0] == chain[1]);
        }
        assert(chain2[rounds - 1] == chain[rounds]);
        lemma_fri_query_completeness(
            chain2,
            betas2,
            doms2,
            trees2,
            commits2,
            final_poly,
            r,
            rounds - 1,
        );
        let (rows2, paths2) = choose|rows2: Seq<Seq<u64>>, paths2: Seq<Seq<Seq<u64>>>|
            query_chain_ok(commits2, betas2, doms2, rows2, paths2, r, chain2[0][r], final_poly);
        let rows = seq![row] + rows2;
        let paths = seq![path] + paths2;
        assert(rows.drop_first() =~= rows2);
        assert(paths.drop_first() =~= paths2);
        assert(commits.drop_first() =~= commits2);
        assert(betas.drop_first() =~= betas2);
        assert(doms.drop_first() =~= doms2);
        assert(rows[0] == row);
        assert(paths[0] == path);
        assert(query_chain_ok(commits, betas, doms, rows, paths, idx, chain[0][idx], final_poly));
    }
}

} // verus!
