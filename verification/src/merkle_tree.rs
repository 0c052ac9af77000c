//! The mixed-matrix commitment scheme (MMCS): a batch of matrices of
//! power-of-two heights is hashed into one Merkle root, and any row index can
//! be opened across the whole batch with a single sibling path.
//!
//! Alignment convention: with `H` the largest height in the batch, a matrix
//! of height `h` contributes its row `i / (H / h)` to leaf `i`; that is, each
//! of its rows is replicated over `H / h` consecutive leaves.

use vstd::prelude::*;
use vstd::arithmetic::power2::{
    pow2, lemma_pow2_adds, lemma_pow2_strictly_increases, lemma_pow2_pos, lemma_pow2_unfold,
};
use vstd::arithmetic::div_mod::{
    lemma_div_denominator, lemma_multiply_divide_lt, lemma_div_multiples_vanish,
    lemma_div_pos_is_pos,
};
use crate::field::{is_fe, all_fe};
use crate::matrix::{RowMajorMatrix, Dimensions};
use crate::symmetric::{
    digest_wf, spec_hash, spec_compress, hash_elements, compress, digest_eq, lemma_hash_wf,
    lemma_compress_wf, DIGEST_WIDTH,
};

verus! {

/// Why a commitment or an opening was rejected.
#[derive(Clone, Copy, PartialEq, Eq, Structural, Debug)]
pub enum MmcsError {
    /// The batch or the claimed shapes are malformed.
    DimensionMismatch,
    /// The recomputed root disagrees with the commitment.
    RootMismatch,
}

/// A height is admissible when it is a power of two no larger than the
/// tree's leaf count.
pub open spec fn height_is_pow2_le(h: int, log_h: nat) -> bool {
    exists|k: nat| k <= log_h && h == pow2(k)
}

/// A committable batch: nonempty, every matrix well formed, every height an
/// admissible power of two.
pub open spec fn batch_wf(ms: Seq<RowMajorMatrix>, log_h: nat) -> bool {
    &&& ms.len() > 0
    &&& forall|j: int|
        0 <= j < ms.len() ==> (#[trigger] ms[j]).wf() && height_is_pow2_le(
            ms[j].spec_height(),
            log_h,
        )
}

/// The row of matrix `m` that leaf `i` of a `2^log_h`-leaf tree takes.
pub open spec fn opened_row(m: RowMajorMatrix, log_h: nat, i: int) -> Seq<u64> {
    m.spec_row(i / (pow2(log_h) as int / m.spec_height()))
}

/// The rows every matrix in the batch contributes to leaf `i`.
pub open spec fn spec_opened_rows(ms: Seq<RowMajorMatrix>, log_h: nat, i: int) -> Seq<Seq<u64>> {
    Seq::new(ms.len(), |j: int| opened_row(ms[j], log_h, i))
}

/// Several rows flattened into one hash input, in batch order.
pub open spec fn concat_rows(rs: Seq<Seq<u64>>) -> Seq<u64>
    decreases rs.len(),
{
    if rs.len() == 0 {
        Seq::empty()
    } else {
        concat_rows(rs.drop_last()) + rs.last()
    }
}

/// What leaf `i` hashes: the concatenation of one row per matrix.
pub open spec fn leaf_input(ms: Seq<RowMajorMatrix>, log_h: nat, i: int) -> Seq<u64> {
    concat_rows(spec_opened_rows(ms, log_h, i))
}

/// The digest at leaf `i`.
pub open spec fn leaf_digest(ms: Seq<RowMajorMatrix>, log_h: nat, i: int) -> Seq<u64> {
    spec_hash(leaf_input(ms, log_h, i))
}

/// The digests at level `k` of the tree: level `0` holds the `2^log_h`
/// leaves, and each higher level compresses adjacent pairs.
pub open spec fn level_digests(ms: Seq<RowMajorMatrix>, log_h: nat, k: nat) -> Seq<Seq<u64>>
    decreases k,
{
    if k == 0 {
        Seq::new(pow2(log_h) as nat, |i: int| leaf_digest(ms, log_h, i))
    } else {
        let prev = level_digests(ms, log_h, (k - 1) as nat);
        Seq::new((prev.len() / 2) as nat, |i: int| spec_compress(prev[2 * i], prev[2 * i + 1]))
    }
}

/// The Merkle root of a batch.
pub open spec fn spec_root(ms: Seq<RowMajorMatrix>, log_h: nat) -> Seq<u64> {
    level_digests(ms, log_h, log_h)[0]
}

/// The index a node's sibling sits at.
pub open spec fn sib(i: int) -> int {
    if i % 2 == 0 {
        i + 1
    } else {
        i - 1
    }
}

/// The sibling path for leaf `index`, bottom to top.
pub open spec fn spec_path(ms: Seq<RowMajorMatrix>, log_h: nat, index: int) -> Seq<Seq<u64>> {
    Seq::new(log_h, |k: int| level_digests(ms, log_h, k as nat)[sib(index / pow2(k as nat) as int)])
}

/// Recomputing a root from a leaf digest, its index, and a sibling path.
pub open spec fn fold_path(leaf: Seq<u64>, index: int, siblings: Seq<Seq<u64>>) -> Seq<u64>
    decreases siblings.len(),
{
    if siblings.len() == 0 {
        leaf
    } else {
        let parent = if index % 2 == 0 {
            spec_compress(leaf, siblings[0])
        } else {
            spec_compress(siblings[0], leaf)
        };
        fold_path(parent, index / 2, siblings.drop_first())
    }
}

/// The level sizes of the tree.
pub proof fn lemma_level_len(ms: Seq<RowMajorMatrix>, log_h: nat, k: nat)
    requires
        k <= log_h,
    ensures
        level_digests(ms, log_h, k).len() == pow2((log_h - k) as nat),
    decreases k,
{
    if k == 0 {
    } else {
        lemma_level_len(ms, log_h, (k - 1) as nat);
        lemma_pow2_unfold((log_h - k + 1) as nat);
    }
}

/// Every digest in the tree is well formed.
pub proof fn lemma_level_wf(ms: Seq<RowMajorMatrix>, log_h: nat, k: nat, i: int)
    requires
        k <= log_h,
        0 <= i < level_digests(ms, log_h, k).len(),
    ensures
        digest_wf(level_digests(ms, log_h, k)[i]),
    decreases k,
{
    if k == 0 {
        lemma_hash_wf(leaf_input(ms, log_h, i));
    } else {
        let prev = level_digests(ms, log_h, (k - 1) as nat);
        lemma_level_len(ms, log_h, k);
        lemma_level_len(ms, log_h, (k - 1) as nat);
        lemma_pow2_unfold((log_h - k + 1) as nat);
        lemma_level_wf(ms, log_h, (k - 1) as nat, 2 * i);
        lemma_level_wf(ms, log_h, (k - 1) as nat, 2 * i + 1);
        lemma_compress_wf(prev[2 * i], prev[2 * i + 1]);
    }
}

/// For an admissible height, the stride is positive, exact, and maps leaf
/// indices to row indices in range.
pub proof fn lemma_stride(h: int, log_h: nat, i: int)
    requires
        height_is_pow2_le(h, log_h),
        0 <= i < pow2(log_h),
    ensures
        pow2(log_h) as int / h >= 1,
        (pow2(log_h) as int / h) * h == pow2(log_h),
        0 <= i / (pow2(log_h) as int / h) < h,
{
    let k = choose|k: nat| k <= log_h && h == pow2(k);
    lemma_pow2_pos(k);
    lemma_pow2_pos((log_h - k) as nat);
    lemma_pow2_adds((log_h - k) as nat, k);
    let s = pow2((log_h - k) as nat) as int;
    assert(s * h == pow2(log_h));
    lemma_div_multiples_vanish(s, h);
    vstd::arithmetic::mul::lemma_mul_is_commutative(h, s);
    assert(pow2(log_h) as int / h == s);
    lemma_multiply_divide_lt(i, s, h);
    lemma_div_pos_is_pos(i, s);
}

/// The prover's data: the committed matrices and every tree level, leaves
/// first, root level last.
pub struct MerkleTree {
    pub matrices: Vec<RowMajorMatrix>,
    pub levels: Vec<Vec<Vec<u64>>>,
    pub log_height: usize,
}

impl MerkleTree {
    /// The tree is the one the specification builds over its matrices.
    pub open spec fn wf(self) -> bool {
        &&& batch_wf(self.matrices@, self.log_height as nat)
        &&& self.log_height <= 31
        &&& self.levels@.len() == self.log_height + 1
        &&& forall|k: int|
            0 <= k <= self.log_height ==> (#[trigger] self.levels@[k])@.len() == level_digests(
                self.matrices@,
                self.log_height as nat,
                k as nat,
            ).len()
        &&& forall|k: int, i: int|
            0 <= k <= self.log_height && 0 <= i < self.levels@[k]@.len() ==> (
            #[trigger] self.levels@[k]@[i])@ == level_digests(
                self.matrices@,
                self.log_height as nat,
                k as nat,
            )[i]
    }

    /// The root digest.
    pub open spec fn spec_commitment(self) -> Seq<u64> {
        spec_root(self.matrices@, self.log_height as nat)
    }
}

/// The binary logarithm of `h`, when `h` is a power of two of at most
/// `2^31`; `None` otherwise.
pub fn log2_exact(h: usize) -> (r: Option<usize>)
    ensures
        match r {
            Some(l) => l <= 31 && h == pow2(l as nat),
            None => forall|k: nat| k <= 31 ==> h != pow2(k),
        },
{
    proof {
        vstd::arithmetic::power2::lemma2_to64();
    }
    if h == 0 {
        proof {
            assert forall|k: nat| k <= 31 implies h != pow2(k) by {
                lemma_pow2_pos(k);
            }
        }
        return None;
    }
    let mut m: usize = 1;
    let mut l: usize = 0;
    while m < h && l < 31
        invariant
            l <= 31,
            m == pow2(l as nat),
            forall|k: nat| k < l ==> pow2(k) < h,
        decreases 31 - l,
    {
        proof {
            lemma_pow2_unfold((l + 1) as nat);
            if l + 1 <= 31 {
                lemma_pow2_strictly_increases(l as nat, 31);
                vstd::arithmetic::power2::lemma2_to64();
            }
            assert forall|k: nat| k < l + 1 implies pow2(k) < h by {
                if k == l {
                    assert(pow2(k) == m);
                }
            }
        }
        m = m * 2;
        l = l + 1;
    }
    if m == h {
        Some(l)
    } else {
        proof {
            assert forall|k: nat| k <= 31 implies h != pow2(k) by {
                if k < l {
                } else if k == l {
                    assert(pow2(k) == m);
                } else {
                    lemma_pow2_strictly_increases(l as nat, k);
                    assert(m < h || m > h);
                    assert(m > h ==> pow2(k) > h);
                    if m < h {
                        // The loop stopped with l at its cap, so k is out of
                        // range.
                        assert(l == 31);
                        assert(k > 31);
                    }
                }
            }
        }
        None
    }
}

/// Whether every matrix's height is a power of two of at most `2^31`, the
/// condition `commit` checks at run time.
pub open spec fn batch_heights_ok(ms: Seq<RowMajorMatrix>) -> bool {
    &&& ms.len() > 0
    &&& forall|j: int|
        0 <= j < ms.len() ==> height_is_pow2_le((#[trigger] ms[j]).spec_height(), 31)
}

/// Checks heights and finds the largest; the batch's tree will have
/// `2^log_h` leaves where `log_h` is the returned logarithm.
fn check_heights(matrices: &Vec<RowMajorMatrix>) -> (r: Result<(usize, usize), MmcsError>)
    requires
        forall|j: int| 0 <= j < matrices@.len() ==> (#[trigger] matrices@[j]).wf(),
    ensures
        match r {
            Ok((log_h, max_h)) => {
                &&& batch_heights_ok(matrices@)
                &&& batch_wf(matrices@, log_h as nat)
                &&& log_h <= 31
                &&& max_h == pow2(log_h as nat)
                &&& (exists|j: int|
                    0 <= j < matrices@.len() && (#[trigger] matrices@[j]).spec_height()
                        == max_h)
            },
            Err(e) => e == MmcsError::DimensionMismatch && !batch_heights_ok(matrices@),
        },
{
    if matrices.len() == 0 {
        return Err(MmcsError::DimensionMismatch);
    }
    let mut max_h: usize = 1;
    let mut log_h: usize = 0;
    let mut j: usize = 0;
    proof {
        vstd::arithmetic::power2::lemma2_to64();
    }
    while j < matrices.len()
        invariant
            forall|jj: int| 0 <= jj < matrices@.len() ==> (#[trigger] matrices@[jj]).wf(),
            matrices@.len() > 0,
            j <= matrices@.len(),
            log_h <= 31,
            max_h == pow2(log_h as nat),
            forall|jj: int|
                0 <= jj < j ==> height_is_pow2_le((#[trigger] matrices@[jj]).spec_height(), 31),
            forall|jj: int| 0 <= jj < j ==> (#[trigger] matrices@[jj]).spec_height() <= max_h,
            j > 0 ==> exists|jj: int|
                0 <= jj < j && (#[trigger] matrices@[jj]).spec_height() == max_h,
            j == 0 ==> max_h == 1,
        decreases matrices@.len() - j,
    {
        let h = matrices[j].height();
        match log2_exact(h) {
            None => {
                proof {
                    assert(!height_is_pow2_le(matrices@[j as int].spec_height(), 31));
                }
                return Err(MmcsError::DimensionMismatch);
            },
            Some(l) => {
                proof {
                    assert(height_is_pow2_le(matrices@[j as int].spec_height(), 31));
                }
                if h > max_h {
                    max_h = h;
                    log_h = l;
                } else {
                    proof {
                        if j == 0 {
                            lemma_pow2_pos(l as nat);
                            assert(matrices@[0].spec_height() == max_h);
                        }
                    }
                }
            },
        }
        j += 1;
    }
    proof {
        assert forall|jj: int| 0 <= jj < matrices@.len() implies height_is_pow2_le(
            (#[trigger] matrices@[jj]).spec_height(),
            log_h as nat,
        ) by {
            let h = matrices@[jj].spec_height();
            let k = choose|k: nat| k <= 31 && h == pow2(k);
            if k > log_h {
                lemma_pow2_strictly_increases(log_h as nat, k);
            }
            assert(k <= log_h && h == pow2(k));
        }
    }
    Ok((log_h, max_h))
}

/// Builds the hash input of one leaf: one row per matrix, concatenated.
fn build_leaf_input(
    matrices: &Vec<RowMajorMatrix>,
    log_h: usize,
    max_h: usize,
    i: usize,
) -> (input: Vec<u64>)
    requires
        batch_wf(matrices@, log_h as nat),
        max_h == pow2(log_h as nat),
        i < max_h,
    ensures
        input@ == leaf_input(matrices@, log_h as nat, i as int),
        all_fe(input@),
{
    let ghost msv = matrices@;
    let ghost glog = log_h as nat;
    let mut input: Vec<u64> = Vec::new();
    let mut jj: usize = 0;
    while jj < matrices.len()
        invariant
            batch_wf(msv, glog),
            msv == matrices@,
            glog == log_h as nat,
            max_h == pow2(glog),
            i < max_h,
            jj <= msv.len(),
            input@ == leaf_input(msv.take(jj as int), glog, i as int),
            all_fe(input@),
        decreases msv.len() - jj,
    {
        let h = matrices[jj].height();
        proof {
            lemma_stride(msv[jj as int].spec_height(), glog, i as int);
        }
        let stride = max_h / h;
        let row_idx = i / stride;
        let row = matrices[jj].row(row_idx);
        let ghost pre = input@;
        let mut c: usize = 0;
        while c < row.len()
            invariant
                all_fe(row@),
                c <= row@.len(),
                input@ == pre + row@.take(c as int),
                all_fe(pre),
            decreases row@.len() - c,
        {
            input.push(row[c]);
            proof {
                assert(input@ =~= pre + row@.take(c + 1));
            }
            c += 1;
        }
        proof {
            assert(row@.take(row@.len() as int) =~= row@);
            assert(msv.take(jj + 1).drop_last() =~= msv.take(jj as int));
            assert(spec_opened_rows(msv.take(jj + 1), glog, i as int).drop_last() =~=
                spec_opened_rows(msv.take(jj as int), glog, i as int));
            assert(spec_opened_rows(msv.take(jj + 1), glog, i as int).last() == opened_row(
                msv[jj as int],
                glog,
                i as int,
            ));
            assert(input@ =~= leaf_input(msv.take(jj + 1), glog, i as int));
        }
        jj += 1;
    }
    proof {
        assert(msv.take(msv.len() as int) =~= msv);
    }
    input
}

/// Builds all leaf digests.
fn build_leaves(matrices: &Vec<RowMajorMatrix>, log_h: usize, max_h: usize) -> (leaves: Vec<
    Vec<u64>,
>)
    requires
        batch_wf(matrices@, log_h as nat),
        max_h == pow2(log_h as nat),
    ensures
        leaves@.len() == max_h,
        forall|ii: int|
            0 <= ii < max_h ==> (#[trigger] leaves@[ii])@ == leaf_digest(
                matrices@,
                log_h as nat,
                ii,
            ),
{
    let mut leaves: Vec<Vec<u64>> = Vec::new();
    let mut i: usize = 0;
    while i < max_h
        invariant
            batch_wf(matrices@, log_h as nat),
            max_h == pow2(log_h as nat),
            i <= max_h,
            leaves@.len() == i,
            forall|ii: int|
                0 <= ii < i ==> (#[trigger] leaves@[ii])@ == leaf_digest(
                    matrices@,
                    log_h as nat,
                    ii,
                ),
        decreases max_h - i,
    {
        let input = build_leaf_input(matrices, log_h, max_h, i);
        let d = hash_elements(&input);
        leaves.push(d);
        i += 1;
    }
    leaves
}

/// Builds level `k` of the tree from level `k - 1`.
fn build_next_level(
    prev: &Vec<Vec<u64>>,
    Ghost(ms): Ghost<Seq<RowMajorMatrix>>,
    Ghost(log_h): Ghost<nat>,
    Ghost(k): Ghost<nat>,
) -> (next: Vec<Vec<u64>>)
    requires
        1 <= k <= log_h,
        prev@.len() == level_digests(ms, log_h, (k - 1) as nat).len(),
        forall|ii: int|
            0 <= ii < prev@.len() ==> (#[trigger] prev@[ii])@ == level_digests(
                ms,
                log_h,
                (k - 1) as nat,
            )[ii],
    ensures
        next@.len() == level_digests(ms, log_h, k).len(),
        forall|ii: int|
            0 <= ii < next@.len() ==> (#[trigger] next@[ii])@ == level_digests(ms, log_h, k)[ii],
{
    proof {
        lemma_level_len(ms, log_h, (k - 1) as nat);
        lemma_level_len(ms, log_h, k);
        lemma_pow2_unfold((log_h - k + 1) as nat);
    }
    let half = prev.len() / 2;
    let mut next: Vec<Vec<u64>> = Vec::new();
    let mut idx: usize = 0;
    while idx < half
        invariant
            1 <= k <= log_h,
            prev@.len() == level_digests(ms, log_h, (k - 1) as nat).len(),
            forall|ii: int|
                0 <= ii < prev@.len() ==> (#[trigger] prev@[ii])@ == level_digests(
                    ms,
                    log_h,
                    (k - 1) as nat,
                )[ii],
            half == prev@.len() / 2,
            2 * half == prev@.len(),
            level_digests(ms, log_h, k).len() == half,
            2 * half <= usize::MAX,
            idx <= half,
            next@.len() == idx,
            forall|ii: int|
                0 <= ii < idx ==> (#[trigger] next@[ii])@ == level_digests(ms, log_h, k)[ii],
        decreases half - idx,
    {
        proof {
            lemma_level_wf(ms, log_h, (k - 1) as nat, 2 * idx);
            lemma_level_wf(ms, log_h, (k - 1) as nat, 2 * idx + 1);
        }
        let d = compress(&prev[2 * idx], &prev[2 * idx + 1]);
        next.push(d);
        idx += 1;
    }
    next
}

/// Commits to a batch of matrices: builds the Merkle tree over their rows
/// and returns the root digest together with the retained tree.
pub fn commit(matrices: Vec<RowMajorMatrix>) -> (r: Result<(Vec<u64>, MerkleTree), MmcsError>)
    requires
        forall|j: int| 0 <= j < matrices@.len() ==> (#[trigger] matrices@[j]).wf(),
    ensures
        match r {
            Ok((c, t)) => {
                &&& batch_heights_ok(matrices@)
                &&& t.matrices@ == matrices@
                &&& t.wf()
                &&& batch_wf(matrices@, t.log_height as nat)
                &&& (exists|j: int|
                    0 <= j < matrices@.len() && (#[trigger] matrices@[j]).spec_height() == pow2(
                        t.log_height as nat,
                    ))
                &&& c@ == spec_root(matrices@, t.log_height as nat)
                &&& digest_wf(c@)
            },
            Err(e) => e == MmcsError::DimensionMismatch && !batch_heights_ok(matrices@),
        },
{
    let (log_h, max_h) = match check_heights(&matrices) {
        Ok(p) => p,
        Err(e) => {
            return Err(e);
        },
    };
    let ghost msv = matrices@;
    let ghost glog = log_h as nat;
    let leaves = build_leaves(&matrices, log_h, max_h);
    let mut levels: Vec<Vec<Vec<u64>>> = Vec::new();
    levels.push(leaves);
    proof {
        lemma_level_len(msv, glog, 0);
    }
    let mut k: usize = 1;
    while k <= log_h
        invariant
            batch_wf(msv, glog),
            msv == matrices@,
            glog == log_h as nat,
            log_h <= 31,
            1 <= k <= log_h + 1,
            levels@.len() == k,
            forall|kk: int|
                0 <= kk < k ==> (#[trigger] levels@[kk])@.len() == level_digests(
                    msv,
                    glog,
                    kk as nat,
                ).len(),
            forall|kk: int, ii: int|
                0 <= kk < k && 0 <= ii < levels@[kk]@.len() ==> (#[trigger] levels@[kk]@[ii])@
                    == level_digests(msv, glog, kk as nat)[ii],
        decreases log_h + 1 - k,
    {
        let prev = &levels[k - 1];
        let next = build_next_level(prev, Ghost(msv), Ghost(glog), Ghost(k as nat));
        levels.push(next);
        k += 1;
    }
    proof {
        vstd::arithmetic::power2::lemma2_to64();
        lemma_level_len(msv, glog, glog);
        lemma_level_wf(msv, glog, glog, 0);
    }
    let root = levels[log_h][0].clone();
    proof {
        assert(root@ == spec_root(msv, glog));
    }
    let tree = MerkleTree { matrices, levels, log_height: log_h };
    Ok((root, tree))
}

/// Two raised to a small exponent, at run time.
pub fn pow2_exec(l: usize) -> (r: usize)
    requires
        l <= 31,
    ensures
        r == pow2(l as nat),
{
    proof {
        vstd::arithmetic::power2::lemma2_to64();
    }
    let mut m: usize = 1;
    let mut k: usize = 0;
    while k < l
        invariant
            k <= l <= 31,
            m == pow2(k as nat),
        decreases l - k,
    {
        proof {
            vstd::arithmetic::power2::lemma2_to64();
            lemma_pow2_unfold((k + 1) as nat);
            lemma_pow2_strictly_increases(k as nat, 31);
        }
        m = m * 2;
        k = k + 1;
    }
    m
}

impl MerkleTree {
    /// Opens row `index`: the contributing row of every matrix in the
    /// batch, and the sibling path that recomputes the root.
    pub fn open_batch(&self, index: usize) -> (r: (Vec<Vec<u64>>, Vec<Vec<u64>>))
        requires
            self.wf(),
            index < pow2(self.log_height as nat),
        ensures
            r.0@.len() == self.matrices@.len(),
            forall|j: int|
                0 <= j < r.0@.len() ==> (#[trigger] r.0@[j])@ == opened_row(
                    self.matrices@[j],
                    self.log_height as nat,
                    index as int,
                ),
            r.1@.len() == self.log_height,
            forall|k: int|
                0 <= k < r.1@.len() ==> (#[trigger] r.1@[k])@ == spec_path(
                    self.matrices@,
                    self.log_height as nat,
                    index as int,
                )[k],
    {
        let ghost msv = self.matrices@;
        let ghost glog = self.log_height as nat;
        let max_h = pow2_exec(self.log_height);
        let mut opened: Vec<Vec<u64>> = Vec::new();
        let mut j: usize = 0;
        while j < self.matrices.len()
            invariant
                self.wf(),
                msv == self.matrices@,
                glog == self.log_height as nat,
                max_h == pow2(glog),
                index < max_h,
                j <= msv.len(),
                opened@.len() == j,
                forall|jj: int|
                    0 <= jj < j ==> (#[trigger] opened@[jj])@ == opened_row(
                        msv[jj],
                        glog,
                        index as int,
                    ),
            decreases msv.len() - j,
        {
            let h = self.matrices[j].height();
            proof {
                lemma_stride(msv[j as int].spec_height(), glog, index as int);
            }
            let stride = max_h / h;
            let row_idx = index / stride;
            opened.push(self.matrices[j].row(row_idx));
            j += 1;
        }
        let mut path: Vec<Vec<u64>> = Vec::new();
        let mut idx: usize = index;
        let mut k: usize = 0;
        proof {
            vstd::arithmetic::power2::lemma2_to64();
            vstd::arithmetic::div_mod::lemma_div_basics(index as int);
        }
        while k < self.log_height
            invariant
                self.wf(),
                msv == self.matrices@,
                glog == self.log_height as nat,
                index < pow2(glog),
                k <= self.log_height,
                idx == index as int / pow2(k as nat) as int,
                idx < pow2((glog - k) as nat),
                path@.len() == k,
                forall|kk: int|
                    0 <= kk < k ==> (#[trigger] path@[kk])@ == spec_path(
                        msv,
                        glog,
                        index as int,
                    )[kk],
            decreases self.log_height - k,
        {
            proof {
                lemma_level_len(msv, glog, k as nat);
                lemma_pow2_unfold((glog - k) as nat);
                lemma_pow2_strictly_increases((glog - k) as nat, 32);
                vstd::arithmetic::power2::lemma2_to64();
            }
            let sib_i = if idx % 2 == 0 {
                idx + 1
            } else {
                idx - 1
            };
            proof {
                assert(sib_i < pow2((glog - k) as nat));
                assert(self.levels@[k as int]@.len() == pow2((glog - k) as nat));
                assert(sib_i as int == sib(index as int / pow2(k as nat) as int as int));
            }
            let d = self.levels[k][sib_i].clone();
            path.push(d);
            proof {
                assert(path@[k as int]@ == spec_path(msv, glog, index as int)[k as int]);
            }
            idx = idx / 2;
            k += 1;
            proof {
                lemma_pow2_unfold(k as nat);
                lemma_div_denominator(index as int, pow2((k - 1) as nat) as int, 2);
                lemma_pow2_unfold((glog - k + 1) as nat);
                lemma_multiply_divide_lt(idx as int * 2 + 1, 2, pow2((glog - k) as nat) as int);
                assert(idx == index as int / pow2(k as nat) as int);
                assert(idx < pow2((glog - k) as nat)) by {
                    lemma_multiply_divide_lt(
                        index as int / pow2((k - 1) as nat) as int,
                        2,
                        pow2((glog - k) as nat) as int,
                    );
                }
            }
        }
        (opened, path)
    }
}

/// The shape a batch opening must have before the root can be recomputed:
/// consistent counts, power-of-two heights reaching the tree's leaf count,
/// rows matching the declared widths, and well-formed digests throughout.
pub open spec fn shape_ok(
    dims: Seq<Dimensions>,
    index: int,
    opened: Seq<Seq<u64>>,
    path: Seq<Seq<u64>>,
) -> bool {
    &&& dims.len() > 0
    &&& opened.len() == dims.len()
    &&& path.len() <= 31
    &&& forall|j: int|
        0 <= j < dims.len() ==> height_is_pow2_le((#[trigger] dims[j]).height as int, path.len())
    &&& exists|j: int| 0 <= j < dims.len() && (#[trigger] dims[j]).height == pow2(path.len())
    &&& 0 <= index < pow2(path.len())
    &&& forall|j: int|
        0 <= j < dims.len() ==> (#[trigger] dims[j]).width > 0 && opened[j].len()
            == dims[j].width && all_fe(opened[j])
    &&& forall|k: int|
        0 <= k < path.len() ==> (#[trigger] path[k]).len() == DIGEST_WIDTH && all_fe(path[k])
}

/// The root a claimed opening recomputes.
pub open spec fn recomputed_root(index: int, opened: Seq<Seq<u64>>, path: Seq<Seq<u64>>) -> Seq<
    u64,
> {
    fold_path(spec_hash(concat_rows(opened)), index, path)
}

/// Decides `shape_ok` at run time.
fn check_shape(
    dims: &Vec<Dimensions>,
    index: usize,
    opened: &Vec<Vec<u64>>,
    path: &Vec<Vec<u64>>,
) -> (b: bool)
    ensures
        b <==> shape_ok(
            dims@,
            index as int,
            opened@.map_values(|v: Vec<u64>| v@),
            path@.map_values(|v: Vec<u64>| v@),
        ),
{
    let ghost dimsv = dims@;
    let ghost openedv = opened@.map_values(|v: Vec<u64>| v@);
    let ghost pathv = path@.map_values(|v: Vec<u64>| v@);
    proof {
        assert(openedv.len() == opened@.len());
        assert(pathv.len() == path@.len());
    }
    if dims.len() == 0 || opened.len() != dims.len() || path.len() > 31 {
        return false;
    }
    let log_p = path.len();
    let max_h = pow2_exec(log_p);
    if index >= max_h {
        return false;
    }
    let mut saw_max = false;
    let mut j: usize = 0;
    while j < dims.len()
        invariant
            dimsv == dims@,
            openedv == opened@.map_values(|v: Vec<u64>| v@),
            pathv == path@.map_values(|v: Vec<u64>| v@),
            opened@.len() == dims@.len(),
            dims@.len() > 0,
            index < pow2(log_p as nat),
            pathv.len() == log_p <= 31,
            max_h == pow2(log_p as nat),
            j <= dimsv.len(),
            forall|jj: int|
                0 <= jj < j ==> height_is_pow2_le(
                    (#[trigger] dimsv[jj]).height as int,
                    log_p as nat,
                ),
            saw_max <==> exists|jj: int|
                0 <= jj < j && (#[trigger] dimsv[jj]).height == pow2(log_p as nat),
        decreases dimsv.len() - j,
    {
        match log2_exact(dims[j].height) {
            None => {
                proof {
                    assert(!height_is_pow2_le(dimsv[j as int].height as int, log_p as nat));
                }
                return false;
            },
            Some(l) => {
                if l > log_p {
                    proof {
                        assert forall|k: nat| k <= log_p implies dimsv[j as int].height != pow2(
                            k,
                        ) by {
                            lemma_pow2_strictly_increases(k, l as nat);
                        }
                        assert(!height_is_pow2_le(dimsv[j as int].height as int, log_p as nat));
                    }
                    return false;
                }
                if dims[j].height == max_h {
                    saw_max = true;
                }
                proof {
                    assert(height_is_pow2_le(dimsv[j as int].height as int, log_p as nat));
                }
            },
        }
        j += 1;
    }
    if !saw_max {
        return false;
    }
    let mut j2: usize = 0;
    while j2 < dims.len()
        invariant
            dimsv == dims@,
            openedv == opened@.map_values(|v: Vec<u64>| v@),
            pathv == path@.map_values(|v: Vec<u64>| v@),
            opened@.len() == dims@.len(),
            j2 <= dimsv.len(),
            forall|jj: int|
                0 <= jj < j2 ==> (#[trigger] dimsv[jj]).width > 0 && openedv[jj].len()
                    == dimsv[jj].width && all_fe(openedv[jj]),
        decreases dimsv.len() - j2,
    {
        if dims[j2].width == 0 || opened[j2].len() != dims[j2].width {
            proof {
                assert(openedv[j2 as int].len() == opened@[j2 as int]@.len());
            }
            return false;
        }
        let row = &opened[j2];
        let mut c: usize = 0;
        while c < row.len()
            invariant
                dimsv == dims@,
                openedv == opened@.map_values(|v: Vec<u64>| v@),
                pathv == path@.map_values(|v: Vec<u64>| v@),
                opened@.len() == dims@.len(),
                0 <= j2 < dimsv.len(),
                row@ == openedv[j2 as int],
                c <= row@.len(),
                forall|cc: int| 0 <= cc < c ==> is_fe(#[trigger] row@[cc]),
            decreases row@.len() - c,
        {
            if row[c] >= crate::field::P {
                proof {
                    assert(!all_fe(openedv[j2 as int]));
                    if shape_ok(dimsv, index as int, openedv, pathv) {
                        let dj = dimsv[j2 as int];
                        assert(all_fe(openedv[j2 as int]));
                    }
                }
                return false;
            }
            c += 1;
        }
        proof {
            assert(all_fe(openedv[j2 as int]));
        }
        j2 += 1;
    }
    let mut k0: usize = 0;
    while k0 < path.len()
        invariant
            dimsv == dims@,
            openedv == opened@.map_values(|v: Vec<u64>| v@),
            pathv == path@.map_values(|v: Vec<u64>| v@),
            opened@.len() == dims@.len(),
            k0 <= pathv.len(),
            forall|kk: int|
                0 <= kk < k0 ==> (#[trigger] pathv[kk]).len() == DIGEST_WIDTH && all_fe(
                    pathv[kk],
                ),
        decreases pathv.len() - k0,
    {
        if path[k0].len() != DIGEST_WIDTH {
            proof {
                assert(pathv[k0 as int].len() != DIGEST_WIDTH);
            }
            return false;
        }
        let d = &path[k0];
        let mut c: usize = 0;
        while c < d.len()
            invariant
                dimsv == dims@,
                openedv == opened@.map_values(|v: Vec<u64>| v@),
                pathv == path@.map_values(|v: Vec<u64>| v@),
                opened@.len() == dims@.len(),
                0 <= k0 < pathv.len(),
                d@ == pathv[k0 as int],
                c <= d@.len(),
                forall|cc: int| 0 <= cc < c ==> is_fe(#[trigger] d@[cc]),
            decreases d@.len() - c,
        {
            if d[c] >= crate::field::P {
                proof {
                    assert(!all_fe(pathv[k0 as int]));
                }
                return false;
            }
            c += 1;
        }
        proof {
            assert(all_fe(pathv[k0 as int]));
        }
        k0 += 1;
    }
    proof {
        assert(shape_ok(dimsv, index as int, openedv, pathv));
    }
    true
}

/// Checks a batch opening against a commitment: recomputes the Merkle root
/// from the opened rows and the sibling path and compares. Returns
/// `DimensionMismatch` when the claimed shapes are malformed, and
/// `RootMismatch` when the recomputed root disagrees.
pub fn verify_batch(
    commitment: &Vec<u64>,
    dims: &Vec<Dimensions>,
    index: usize,
    opened: &Vec<Vec<u64>>,
    path: &Vec<Vec<u64>>,
) -> (r: Result<(), MmcsError>)
    requires
        commitment@.len() == DIGEST_WIDTH,
    ensures
        r == Ok::<(), MmcsError>(()) <==> shape_ok(
            dims@,
            index as int,
            opened@.map_values(|v: Vec<u64>| v@),
            path@.map_values(|v: Vec<u64>| v@),
        ) && recomputed_root(
            index as int,
            opened@.map_values(|v: Vec<u64>| v@),
            path@.map_values(|v: Vec<u64>| v@),
        ) == commitment@,
        r == Err::<(), MmcsError>(MmcsError::DimensionMismatch) <==> !shape_ok(
            dims@,
            index as int,
            opened@.map_values(|v: Vec<u64>| v@),
            path@.map_values(|v: Vec<u64>| v@),
        ),
{
    let ghost dimsv = dims@;
    let ghost openedv = opened@.map_values(|v: Vec<u64>| v@);
    let ghost pathv = path@.map_values(|v: Vec<u64>| v@);
    if !check_shape(dims, index, opened, path) {
        return Err(MmcsError::DimensionMismatch);
    }
    // Recompute the leaf digest from the opened rows.
    let mut input: Vec<u64> = Vec::new();
    let mut j3: usize = 0;
    while j3 < opened.len()
        invariant
            openedv == opened@.map_values(|v: Vec<u64>| v@),
            shape_ok(dimsv, index as int, openedv, pathv),
            dimsv == dims@,
            opened@.len() == dims@.len(),
            j3 <= openedv.len(),
            input@ == concat_rows(openedv.take(j3 as int)),
            all_fe(input@),
        decreases openedv.len() - j3,
    {
        let row = &opened[j3];
        let ghost pre = input@;
        proof {
            assert(dimsv[j3 as int].width > 0);
            assert(all_fe(openedv[j3 as int]));
        }
        let mut c: usize = 0;
        while c < row.len()
            invariant
                row@ == openedv[j3 as int],
                all_fe(row@),
                c <= row@.len(),
                input@ == pre + row@.take(c as int),
                all_fe(pre),
            decreases row@.len() - c,
        {
            input.push(row[c]);
            proof {
                assert(input@ =~= pre + row@.take(c + 1));
            }
            c += 1;
        }
        proof {
            assert(row@.take(row@.len() as int) =~= row@);
            assert(openedv.take(j3 + 1).drop_last() =~= openedv.take(j3 as int));
            assert(input@ =~= concat_rows(openedv.take(j3 + 1)));
        }
        j3 += 1;
    }
    proof {
        assert(openedv.take(openedv.len() as int) =~= openedv);
    }
    let mut cur = hash_elements(&input);
    let ghost leaf_d = spec_hash(concat_rows(openedv));
    // Fold the sibling path up to the root.
    let mut idx: usize = index;
    let mut k: usize = 0;
    proof {
        assert(pathv.skip(0) =~= pathv);
        vstd::arithmetic::power2::lemma2_to64();
        vstd::arithmetic::div_mod::lemma_div_basics(index as int);
    }
    while k < path.len()
        invariant
            pathv == path@.map_values(|v: Vec<u64>| v@),
            shape_ok(dimsv, index as int, openedv, pathv),
            k <= pathv.len(),
            idx == index as int / pow2(k as nat) as int,
            digest_wf(cur@),
            fold_path(cur@, idx as int, pathv.skip(k as int)) == fold_path(
                leaf_d,
                index as int,
                pathv,
            ),
        decreases pathv.len() - k,
    {
        let ghost pre_cur = cur@;
        let ghost pre_idx = idx as int;
        let sibling = &path[k];
        proof {
            assert(pathv[k as int].len() == DIGEST_WIDTH && all_fe(pathv[k as int]));
            lemma_compress_wf(cur@, sibling@);
            lemma_compress_wf(sibling@, cur@);
        }
        cur = if idx % 2 == 0 {
            compress(&cur, sibling)
        } else {
            compress(sibling, &cur)
        };
        idx = idx / 2;
        k += 1;
        proof {
            assert(pathv.skip(k - 1).drop_first() =~= pathv.skip(k as int));
            assert(pathv.skip(k - 1)[0] == pathv[k - 1]);
            lemma_pow2_unfold(k as nat);
            lemma_pow2_pos((k - 1) as nat);
            lemma_div_denominator(index as int, pow2((k - 1) as nat) as int, 2);
            assert(idx == index as int / pow2(k as nat) as int);
            assert(fold_path(pre_cur, pre_idx, pathv.skip(k - 1)) == fold_path(
                cur@,
                idx as int,
                pathv.skip(k as int),
            ));
        }
    }
    proof {
        assert(pathv.skip(pathv.len() as int) =~= Seq::<Seq<u64>>::empty());
        assert(fold_path(cur@, idx as int, pathv.skip(pathv.len() as int)) == cur@);
        assert(cur@ == recomputed_root(index as int, openedv, pathv));
    }
    if digest_eq(&cur, commitment) {
        Ok(())
    } else {
        Err(MmcsError::RootMismatch)
    }
}

/// The sibling path seen from a node at level `k`, index `i`.
pub open spec fn path_from(ms: Seq<RowMajorMatrix>, log_h: nat, k: nat, i: int) -> Seq<Seq<u64>> {
    Seq::new(
        (log_h - k) as nat,
        |j: int| level_digests(ms, log_h, (k + j) as nat)[sib(i / pow2(j as nat) as int)],
    )
}

/// Folding any tree node against its sibling path recomputes the root.
proof fn lemma_fold_from_level(ms: Seq<RowMajorMatrix>, log_h: nat, k: nat, i: int)
    requires
        k <= log_h,
        0 <= i < pow2((log_h - k) as nat),
    ensures
        fold_path(level_digests(ms, log_h, k)[i], i, path_from(ms, log_h, k, i)) == spec_root(
            ms,
            log_h,
        ),
    decreases log_h - k,
{
    vstd::arithmetic::power2::lemma2_to64();
    if k == log_h {
        assert(path_from(ms, log_h, k, i).len() == 0);
        assert(i == 0);
    } else {
        let cur = level_digests(ms, log_h, k);
        let nxt = level_digests(ms, log_h, (k + 1) as nat);
        let pf = path_from(ms, log_h, k, i);
        lemma_level_len(ms, log_h, k);
        lemma_level_len(ms, log_h, (k + 1) as nat);
        lemma_pow2_unfold((log_h - k) as nat);
        vstd::arithmetic::div_mod::lemma_div_basics(i);
        assert(pf[0] == cur[sib(i)]);
        lemma_multiply_divide_lt(i, 2, pow2((log_h - k - 1) as nat) as int);
        lemma_div_pos_is_pos(i, 2);
        let half = i / 2;
        assert(nxt[half] == spec_compress(cur[2 * half], cur[2 * half + 1]));
        vstd::arithmetic::div_mod::lemma_fundamental_div_mod(i, 2);
        let parent = if i % 2 == 0 {
            spec_compress(cur[i], pf[0])
        } else {
            spec_compress(pf[0], cur[i])
        };
        if i % 2 == 0 {
            assert(2 * half == i);
            assert(parent == nxt[half]);
        } else {
            assert(2 * half == i - 1);
            assert(sib(i) == i - 1);
            assert(parent == nxt[half]);
        }
        assert(pf.drop_first() =~= path_from(ms, log_h, (k + 1) as nat, half)) by {
            assert forall|j: int| 0 <= j < pf.len() - 1 implies pf.drop_first()[j] == path_from(
                ms,
                log_h,
                (k + 1) as nat,
                half,
            )[j] by {
                lemma_pow2_pos(j as nat);
                lemma_pow2_unfold((j + 1) as nat);
                lemma_div_denominator(i, 2, pow2(j as nat) as int);
                assert((i / 2) / pow2(j as nat) as int == i / pow2((j + 1) as nat) as int);
                assert(pf.drop_first()[j] == pf[j + 1]);
            }
        }
        lemma_fold_from_level(ms, log_h, (k + 1) as nat, half);
        assert(fold_path(cur[i], i, pf) == fold_path(parent, half, pf.drop_first()));
    }
}

/// The dimensions a batch declares to the verifier.
pub open spec fn dims_of(ms: Seq<RowMajorMatrix>) -> Seq<Dimensions> {
    Seq::new(
        ms.len(),
        |j: int|
            Dimensions {
                width: ms[j].spec_width() as usize,
                height: ms[j].spec_height() as usize,
            },
    )
}

/// The commitment round trip: opening any leaf index of a committed batch
/// yields rows and a sibling path that pass verification, because the
/// recomputed root is the committed root.
pub proof fn lemma_mmcs_round_trip(ms: Seq<RowMajorMatrix>, log_h: nat, index: int)
    requires
        batch_wf(ms, log_h),
        log_h <= 31,
        0 <= index < pow2(log_h),
        exists|j: int| 0 <= j < ms.len() && (#[trigger] ms[j]).spec_height() == pow2(log_h),
        forall|j: int|
            0 <= j < ms.len() ==> (#[trigger] ms[j]).spec_height() <= usize::MAX
                && ms[j].spec_width() <= usize::MAX,
    ensures
        shape_ok(
            dims_of(ms),
            index,
            spec_opened_rows(ms, log_h, index),
            spec_path(ms, log_h, index),
        ),
        recomputed_root(index, spec_opened_rows(ms, log_h, index), spec_path(ms, log_h, index))
            == spec_root(ms, log_h),
{
    vstd::arithmetic::power2::lemma2_to64();
    let dims = dims_of(ms);
    let opened = spec_opened_rows(ms, log_h, index);
    let path = spec_path(ms, log_h, index);
    // The declared shapes are consistent.
    assert forall|j: int| 0 <= j < dims.len() implies height_is_pow2_le(
        (#[trigger] dims[j]).height as int,
        path.len(),
    ) by {
        assert(ms[j].wf() && height_is_pow2_le(ms[j].spec_height(), log_h));
        assert(dims[j].height as int == ms[j].spec_height());
    }

    assert forall|j: int| 0 <= j < dims.len() implies (#[trigger] dims[j]).width > 0
        && opened[j].len() == dims[j].width && all_fe(opened[j]) by {
        assert(ms[j].wf());
        lemma_stride(ms[j].spec_height(), log_h, index);
        ms[j].lemma_rows_wf(index / (pow2(log_h) as int / ms[j].spec_height()));
    }
    assert forall|k: int| 0 <= k < path.len() implies (#[trigger] path[k]).len() == DIGEST_WIDTH
        && all_fe(path[k]) by {
        lemma_level_len(ms, log_h, k as nat);
        let lvl = level_digests(ms, log_h, k as nat);
        let pos = sib(index / pow2(k as nat) as int);
        lemma_pow2_pos(k as nat);
        lemma_div_pos_is_pos(index, pow2(k as nat) as int);
        lemma_pow2_unfold((log_h - k) as nat);
        assert((index / pow2(k as nat) as int) < pow2((log_h - k) as nat)) by {
            lemma_pow2_adds(k as nat, (log_h - k) as nat);
            lemma_multiply_divide_lt(index, pow2(k as nat) as int, pow2((log_h - k) as nat) as int);
        }
        assert(0 <= pos < lvl.len());
        lemma_level_wf(ms, log_h, k as nat, pos);
    }
    let ghost witness = choose|j: int|
        0 <= j < ms.len() && (#[trigger] ms[j]).spec_height() == pow2(log_h);
    assert(dims[witness].height == pow2(path.len()));
    assert(shape_ok(dims, index, opened, path));
    // The recomputed root is the committed root.
    assert(level_digests(ms, log_h, 0)[index] == leaf_digest(ms, log_h, index));
    lemma_fold_from_level(ms, log_h, 0, index);
    assert(path =~= path_from(ms, log_h, 0, index)) by {
        assert forall|j: int| 0 <= j < path.len() implies path[j] == path_from(
            ms,
            log_h,
            0,
            index,
        )[j] by {
            assert((0 + j) as nat == j as nat);
        }
    }
    assert(spec_hash(concat_rows(opened)) == leaf_digest(ms, log_h, index));
}

} // verus!
