//! The Fiat-Shamir challenger: a duplex sponge that absorbs committed data
//! and emits pseudorandom field elements and bit strings. Every operation
//! has an exact functional contract, so a prover and a verifier that observe
//! the same data draw the same challenges.

use vstd::prelude::*;
use vstd::arithmetic::power2::{pow2, lemma_pow2_unfold, lemma_pow2_strictly_increases};
use crate::field::{is_fe, all_fe};
use crate::symmetric::{
    state_wf, spec_absorb, spec_absorb_seq, spec_permute, zero_state, permute, absorb,
    STATE_WIDTH,
};

verus! {

/// The sample stream a state yields: lane zero, then permute, repeatedly.
pub open spec fn spec_sample_seq(st: Seq<u64>, n: nat) -> Seq<u64>
    decreases n,
{
    if n == 0 {
        Seq::empty()
    } else {
        seq![st[0]] + spec_sample_seq(spec_permute(st), (n - 1) as nat)
    }
}

/// A Fiat-Shamir transcript. Observations are absorbed into the sponge
/// state; samples read lane zero and permute.
pub struct Challenger {
    pub state: Vec<u64>,
}

impl Challenger {
    /// A well-formed challenger holds a full sponge state of canonical
    /// field elements.
    pub open spec fn wf(self) -> bool {
        state_wf(self.state@)
    }

    /// A fresh challenger, in the all-zero state.
    pub fn new() -> (c: Challenger)
        ensures
            c.wf(),
            c.state@ == zero_state(),
    {
        let mut st: Vec<u64> = Vec::new();
        let mut i: usize = 0;
        while i < STATE_WIDTH
            invariant
                i <= STATE_WIDTH,
                st@.len() == i,
                forall|k: int| 0 <= k < i ==> st@[k] == 0u64,
            decreases STATE_WIDTH - i,
        {
            st.push(0);
            i += 1;
        }
        proof {
            assert(st@ =~= zero_state());
        }
        Challenger { state: st }
    }

    /// Absorbs one field element.
    pub fn observe(&mut self, x: u64)
        requires
            old(self).wf(),
            is_fe(x),
        ensures
            final(self).wf(),
            final(self).state@ == spec_absorb(old(self).state@, x),
    {
        self.state = absorb(&self.state, x);
    }

    /// Absorbs a sequence of field elements, in order.
    pub fn observe_elements(&mut self, xs: &Vec<u64>)
        requires
            old(self).wf(),
            all_fe(xs@),
        ensures
            final(self).wf(),
            final(self).state@ == spec_absorb_seq(old(self).state@, xs@),
    {
        let ghost st0 = self.state@;
        let mut i: usize = 0;
        while i < xs.len()
            invariant
                self.wf(),
                all_fe(xs@),
                i <= xs@.len(),
                self.state@ == spec_absorb_seq(st0, xs@.take(i as int)),
            decreases xs@.len() - i,
        {
            self.observe(xs[i]);
            proof {
                assert(xs@.take(i + 1).drop_last() =~= xs@.take(i as int));
            }
            i += 1;
        }
        proof {
            assert(xs@.take(xs@.len() as int) =~= xs@);
        }
    }

    /// Draws one pseudorandom field element and advances the state.
    pub fn sample(&mut self) -> (r: u64)
        requires
            old(self).wf(),
        ensures
            final(self).wf(),
            is_fe(r),
            r == old(self).state@[0],
            final(self).state@ == spec_permute(old(self).state@),
    {
        let r = self.state[0];
        self.state = permute(&self.state);
        r
    }

    /// Draws `bits` pseudorandom bits, as the low bits of one sample.
    pub fn sample_bits(&mut self, bits: usize) -> (r: usize)
        requires
            old(self).wf(),
            bits <= 27,
        ensures
            final(self).wf(),
            r == old(self).state@[0] as int % pow2(bits as nat) as int,
            r < pow2(bits as nat),
            final(self).state@ == spec_permute(old(self).state@),
    {
        let s = self.sample();
        let mut m: u64 = 1;
        let mut k: usize = 0;
        proof {
            vstd::arithmetic::power2::lemma2_to64();
        }
        while k < bits
            invariant
                k <= bits <= 27,
                m == pow2(k as nat),
            decreases bits - k,
        {
            proof {
                vstd::arithmetic::power2::lemma2_to64();
                lemma_pow2_unfold((k + 1) as nat);
                lemma_pow2_strictly_increases(k as nat, 27);
            }
            m = m * 2;
            k += 1;
        }
        proof {
            vstd::arithmetic::power2::lemma2_to64();
            lemma_pow2_strictly_increases(bits as nat, 28);
            vstd::arithmetic::div_mod::lemma_mod_bound(s as int, m as int);
        }
        (s % m) as usize
    }
}

/// Fiat-Shamir determinism: from one state, identical observation sequences
/// yield identical sample streams of every length. Each transcript operation
/// has an exact functional contract, so this substitution property is what
/// lets a verifier replay the prover's challenges.
pub proof fn lemma_challenger_determinism(st1: Seq<u64>, st2: Seq<u64>, obs1: Seq<u64>, obs2: Seq<
    u64,
>, n: nat)
    requires
        st1 == st2,
        obs1 == obs2,
    ensures
        spec_sample_seq(spec_absorb_seq(st1, obs1), n) == spec_sample_seq(
            spec_absorb_seq(st2, obs2),
            n,
        ),
{
}

} // verus!
