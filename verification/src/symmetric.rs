//! The hashing capability the commitment scheme is built on: a simple
//! algebraic permutation over the field, a sponge hash over field-element
//! sequences, and a two-to-one digest compression function. The permutation
//! is a stand-in with the same interface as the pluggable cryptographic
//! permutations the scheme is normally instantiated with.

use vstd::prelude::*;
use crate::field::{is_fe, all_fe, addf, mulf, lemma_repr_ops, add_fe, mul_fe, P};

verus! {

/// The permutation width, in field elements.
pub const STATE_WIDTH: usize = 8;

/// The number of permutation rounds.
pub const N_ROUNDS: usize = 8;

/// The digest width, in field elements.
pub const DIGEST_WIDTH: usize = 4;

/// A state is eight canonical field elements.
pub open spec fn state_wf(s: Seq<u64>) -> bool {
    s.len() == STATE_WIDTH && all_fe(s)
}

/// A digest is four canonical field elements.
pub open spec fn digest_wf(d: Seq<u64>) -> bool {
    d.len() == DIGEST_WIDTH && all_fe(d)
}

/// The round constant injected into lane `i` at round `r`.
pub open spec fn round_constant(r: int, i: int) -> u64 {
    (((r * 8 + i) * 2654435761 + 1) % (P as int)) as u64
}

/// The cubing s-box.
pub open spec fn sbox(x: u64) -> u64 {
    mulf(mulf(x, x), x)
}

/// The sum of a sequence of field elements, left to right.
pub open spec fn fsum(s: Seq<u64>) -> u64
    decreases s.len(),
{
    if s.len() == 0 {
        0u64
    } else {
        addf(fsum(s.drop_last()), s.last())
    }
}

/// One permutation round: add round constants, cube each lane, then mix by
/// adding the lane total back onto every lane.
pub open spec fn spec_round(st: Seq<u64>, r: int) -> Seq<u64> {
    let t = Seq::new(st.len(), |i: int| sbox(addf(st[i], round_constant(r, i))));
    let total = fsum(t);
    Seq::new(st.len(), |i: int| addf(t[i], total))
}

/// The first `n` rounds of the permutation, applied in order.
pub open spec fn spec_rounds(st: Seq<u64>, n: nat) -> Seq<u64>
    decreases n,
{
    if n == 0 {
        st
    } else {
        spec_round(spec_rounds(st, (n - 1) as nat), n - 1)
    }
}

/// The full permutation.
#[verifier::opaque]
pub open spec fn spec_permute(st: Seq<u64>) -> Seq<u64> {
    spec_rounds(st, N_ROUNDS as nat)
}

/// Absorbing one element: add it onto lane zero, then permute.
pub open spec fn spec_absorb(st: Seq<u64>, x: u64) -> Seq<u64> {
    spec_permute(st.update(0, addf(st[0], x)))
}

/// Absorbing a sequence, element by element in order.
pub open spec fn spec_absorb_seq(st: Seq<u64>, xs: Seq<u64>) -> Seq<u64>
    decreases xs.len(),
{
    if xs.len() == 0 {
        st
    } else {
        spec_absorb(spec_absorb_seq(st, xs.drop_last()), xs.last())
    }
}

/// The all-zero state the sponge starts from.
pub open spec fn zero_state() -> Seq<u64> {
    Seq::new(STATE_WIDTH as nat, |i: int| 0u64)
}

/// The sponge hash of a sequence of field elements: absorb everything from
/// the zero state, then read the first four lanes.
pub open spec fn spec_hash(xs: Seq<u64>) -> Seq<u64> {
    spec_absorb_seq(zero_state(), xs).take(DIGEST_WIDTH as int)
}

/// Two-to-one compression of digests: permute their concatenation and read
/// the first four lanes.
pub open spec fn spec_compress(a: Seq<u64>, b: Seq<u64>) -> Seq<u64> {
    spec_permute(a + b).take(DIGEST_WIDTH as int)
}

/// The round constant at run time.
fn round_constant_exec(r: usize, i: usize) -> (c: u64)
    requires
        r < N_ROUNDS,
        i < STATE_WIDTH,
    ensures
        c == round_constant(r as int, i as int),
        is_fe(c),
{
    proof {
        vstd::arithmetic::div_mod::lemma_mod_bound(
            ((r * 8 + i) * 2654435761 + 1) as int,
            P as int,
        );
    }
    ((r as u64 * 8 + i as u64) * 2654435761 + 1) % P
}

/// One permutation round at run time.
fn apply_round(st: &Vec<u64>, r: usize) -> (out: Vec<u64>)
    requires
        state_wf(st@),
        r < N_ROUNDS,
    ensures
        out@ == spec_round(st@, r as int),
        state_wf(out@),
{
    let ghost t_spec = Seq::new(st@.len(), |i: int| sbox(addf(st@[i], round_constant(r as int, i))));
    let mut t: Vec<u64> = Vec::new();
    let mut i: usize = 0;
    while i < STATE_WIDTH
        invariant
            state_wf(st@),
            r < N_ROUNDS,
            i <= STATE_WIDTH,
            t@.len() == i,
            t@ =~= t_spec.take(i as int),
            all_fe(t@),
            t_spec == Seq::new(st@.len(), |k: int| sbox(addf(st@[k], round_constant(r as int, k)))),
        decreases STATE_WIDTH - i,
    {
        let c = round_constant_exec(r, i);
        let x = add_fe(st[i], c);
        let x2 = mul_fe(x, x);
        let x3 = mul_fe(x2, x);
        t.push(x3);
        proof {
            assert(t@ =~= t_spec.take(i + 1));
        }
        i += 1;
    }
    proof {
        assert(t@ =~= t_spec);
    }
    let mut total: u64 = 0;
    let mut j: usize = 0;
    while j < STATE_WIDTH
        invariant
            t@ == t_spec,
            t@.len() == STATE_WIDTH,
            all_fe(t@),
            j <= STATE_WIDTH,
            is_fe(total),
            total == fsum(t@.take(j as int)),
        decreases STATE_WIDTH - j,
    {
        proof {
            assert(t@.take(j + 1).drop_last() =~= t@.take(j as int));
        }
        total = add_fe(total, t[j]);
        j += 1;
    }
    proof {
        assert(t@.take(STATE_WIDTH as int) =~= t@);
    }
    let mut out: Vec<u64> = Vec::new();
    let mut k: usize = 0;
    while k < STATE_WIDTH
        invariant
            t@ == t_spec,
            t@.len() == STATE_WIDTH,
            all_fe(t@),
            is_fe(total),
            total == fsum(t@),
            k <= STATE_WIDTH,
            out@.len() == k,
            all_fe(out@),
            forall|m: int| 0 <= m < k ==> out@[m] == addf(t_spec[m], fsum(t_spec)),
        decreases STATE_WIDTH - k,
    {
        let v = add_fe(t[k], total);
        out.push(v);
        k += 1;
    }
    proof {
        assert(out@ =~= spec_round(st@, r as int));
    }
    out
}

/// The full permutation at run time.
pub fn permute(st: &Vec<u64>) -> (out: Vec<u64>)
    requires
        state_wf(st@),
    ensures
        out@ == spec_permute(st@),
        state_wf(out@),
{
    let mut cur: Vec<u64> = st.clone();
    let mut r: usize = 0;
    while r < N_ROUNDS
        invariant
            state_wf(cur@),
            r <= N_ROUNDS,
            cur@ == spec_rounds(st@, r as nat),
        decreases N_ROUNDS - r,
    {
        cur = apply_round(&cur, r);
        r += 1;
    }
    proof {
        reveal(spec_permute);
    }
    cur
}

/// The permutation keeps states well formed.
pub proof fn lemma_permute_wf(st: Seq<u64>)
    requires
        state_wf(st),
    ensures
        state_wf(spec_permute(st)),
{
    reveal(spec_permute);
    lemma_rounds_wf(st, N_ROUNDS as nat);
}

/// Each prefix of rounds keeps states well formed.
proof fn lemma_rounds_wf(st: Seq<u64>, n: nat)
    requires
        state_wf(st),
    ensures
        state_wf(spec_rounds(st, n)),
    decreases n,
{
    if n == 0 {
    } else {
        lemma_rounds_wf(st, (n - 1) as nat);
        let prev = spec_rounds(st, (n - 1) as nat);
        let t = Seq::new(prev.len(), |i: int| sbox(addf(prev[i], round_constant(n - 1, i))));
        assert forall|i: int| 0 <= i < STATE_WIDTH implies is_fe(
            #[trigger] spec_round(prev, n - 1)[i],
        ) by {
            lemma_repr_ops(t[i], fsum(t));
        }
    }
}

/// Absorbing a sequence keeps states well formed.
pub proof fn lemma_absorb_seq_wf(st: Seq<u64>, xs: Seq<u64>)
    requires
        state_wf(st),
    ensures
        state_wf(spec_absorb_seq(st, xs)),
    decreases xs.len(),
{
    if xs.len() == 0 {
    } else {
        lemma_absorb_seq_wf(st, xs.drop_last());
        let mid = spec_absorb_seq(st, xs.drop_last());
        let upd = mid.update(0, addf(mid[0], xs.last()));
        lemma_repr_ops(mid[0], xs.last());
        assert(state_wf(upd));
        lemma_permute_wf(upd);
    }
}

/// A sponge hash is a well-formed digest, whatever was absorbed.
pub proof fn lemma_hash_wf(xs: Seq<u64>)
    ensures
        digest_wf(spec_hash(xs)),
{
    lemma_absorb_seq_wf(zero_state(), xs);
    let fin = spec_absorb_seq(zero_state(), xs);
    assert forall|i: int| 0 <= i < DIGEST_WIDTH implies is_fe(
        #[trigger] fin.take(DIGEST_WIDTH as int)[i],
    ) by {
        assert(fin.take(DIGEST_WIDTH as int)[i] == fin[i]);
    }
}

/// Compressing two well-formed digests gives a well-formed digest.
pub proof fn lemma_compress_wf(a: Seq<u64>, b: Seq<u64>)
    requires
        digest_wf(a),
        digest_wf(b),
    ensures
        digest_wf(spec_compress(a, b)),
{
    assert(state_wf(a + b));
    lemma_permute_wf(a + b);
    let fin = spec_permute(a + b);
    assert forall|i: int| 0 <= i < DIGEST_WIDTH implies is_fe(
        #[trigger] fin.take(DIGEST_WIDTH as int)[i],
    ) by {
        assert(fin.take(DIGEST_WIDTH as int)[i] == fin[i]);
    }
}

/// Absorbing one element at run time.
pub fn absorb(st: &Vec<u64>, x: u64) -> (out: Vec<u64>)
    requires
        state_wf(st@),
        is_fe(x),
    ensures
        out@ == spec_absorb(st@, x),
        state_wf(out@),
{
    let mut buf = st.clone();
    let s0 = add_fe(buf[0], x);
    buf.set(0, s0);
    proof {
        assert(buf@ =~= st@.update(0, addf(st@[0], x)));
    }
    permute(&buf)
}

/// The sponge hash of a vector of field elements.
pub fn hash_elements(xs: &Vec<u64>) -> (d: Vec<u64>)
    requires
        all_fe(xs@),
    ensures
        d@ == spec_hash(xs@),
        digest_wf(d@),
{
    let mut st: Vec<u64> = Vec::new();
    let mut i: usize = 0;
    while i < STATE_WIDTH
        invariant
            i <= STATE_WIDTH,
            st@.len() == i,
            forall|k: int| 0 <= k < i ==> st@[k] == 0u64,
        decreases STATE_WIDTH - i,
    {
        st.push(0);
        i += 1;
    }
    proof {
        assert(st@ =~= zero_state());
    }
    let mut j: usize = 0;
    while j < xs.len()
        invariant
            all_fe(xs@),
            j <= xs.len(),
            state_wf(st@),
            st@ == spec_absorb_seq(zero_state(), xs@.take(j as int)),
        decreases xs.len() - j,
    {
        let ghost pre = xs@.take(j as int);
        st = absorb(&st, xs[j]);
        proof {
            assert(xs@.take(j + 1).drop_last() =~= pre);
            assert(xs@.take(j + 1).last() == xs@[j as int]);
        }
        j += 1;
    }
    proof {
        assert(xs@.take(xs@.len() as int) =~= xs@);
    }
    let mut d: Vec<u64> = Vec::new();
    d.push(st[0]);
    d.push(st[1]);
    d.push(st[2]);
    d.push(st[3]);
    proof {
        assert(d@ =~= spec_hash(xs@));
    }
    d
}

/// Two-to-one compression of digests.
pub fn compress(a: &Vec<u64>, b: &Vec<u64>) -> (d: Vec<u64>)
    requires
        digest_wf(a@),
        digest_wf(b@),
    ensures
        d@ == spec_compress(a@, b@),
        digest_wf(d@),
{
    let mut st: Vec<u64> = Vec::new();
    let mut i: usize = 0;
    while i < DIGEST_WIDTH
        invariant
            digest_wf(a@),
            i <= DIGEST_WIDTH,
            st@ =~= a@.take(i as int),
        decreases DIGEST_WIDTH - i,
    {
        st.push(a[i]);
        proof {
            assert(st@ =~= a@.take(i + 1));
        }
        i += 1;
    }
    let mut j: usize = 0;
    while j < DIGEST_WIDTH
        invariant
            digest_wf(a@),
            digest_wf(b@),
            j <= DIGEST_WIDTH,
            st@ =~= a@ + b@.take(j as int),
        decreases DIGEST_WIDTH - j,
    {
        st.push(b[j]);
        proof {
            assert(st@ =~= a@ + b@.take(j + 1));
        }
        j += 1;
    }
    proof {
        assert(st@ =~= a@ + b@);
        assert(state_wf(st@));
    }
    let out = permute(&st);
    let mut d: Vec<u64> = Vec::new();
    d.push(out[0]);
    d.push(out[1]);
    d.push(out[2]);
    d.push(out[3]);
    proof {
        assert(d@ =~= spec_compress(a@, b@));
    }
    d
}

/// Whether two digests hold the same values.
pub fn digest_eq(a: &Vec<u64>, b: &Vec<u64>) -> (r: bool)
    requires
        a@.len() == DIGEST_WIDTH,
        b@.len() == DIGEST_WIDTH,
    ensures
        r <==> a@ =~= b@,
{
    let r = a[0] == b[0] && a[1] == b[1] && a[2] == b[2] && a[3] == b[3];
    proof {
        if r {
            assert(a@ =~= b@);
        }
    }
    r
}

} // verus!
