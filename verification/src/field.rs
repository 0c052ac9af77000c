//! The prime field of order `P`, a two-adic prime. Field elements are `u64`
//! values below `P`; specifications speak of integers modulo `P`.

use vstd::prelude::*;
use vstd::arithmetic::div_mod::{
    lemma_mul_mod_noop_general, lemma_mod_bound, lemma_small_mod, lemma_mod_sub_multiples_vanish,
};
use vstd::arithmetic::mul::lemma_mul_is_associative;

verus! {

/// The field modulus: a prime with a large power-of-two subgroup,
/// `P - 1 == 2^27 * 15`.
pub const P: u64 = 2013265921;

/// The inverse of two in the field: `2 * INV2 == P + 1`.
pub const INV2: u64 = 1006632961;

/// A multiplicative generator of the field: its powers reach every nonzero
/// element, so `GENERATOR^((P-1) / 2^k)` generates the order-`2^k` subgroup.
pub const GENERATOR: u64 = 31;

/// A `u64` is a field element when it is a canonical residue below `P`.
pub open spec fn is_fe(a: u64) -> bool {
    a < P
}

/// Every entry of a sequence is a canonical field element.
pub open spec fn all_fe(s: Seq<u64>) -> bool {
    forall|i: int| 0 <= i < s.len() ==> is_fe(#[trigger] s[i])
}

/// Field addition, as mathematics: `(a + b) mod P`.
pub open spec fn fadd(a: int, b: int) -> int {
    (a + b) % (P as int)
}

/// Field subtraction: `(a - b) mod P` (Euclidean remainder, so in `[0, P)`).
pub open spec fn fsub(a: int, b: int) -> int {
    (a - b) % (P as int)
}

/// Field negation: `(-a) mod P`.
pub open spec fn fneg(a: int) -> int {
    (0 - a) % (P as int)
}

/// Field multiplication: `(a * b) mod P`.
pub open spec fn fmul(a: int, b: int) -> int {
    (a * b) % (P as int)
}

/// Field exponentiation by a natural number, by repeated multiplication.
pub open spec fn fpow(b: int, e: nat) -> int
    decreases e,
{
    if e == 0 {
        1int
    } else {
        fmul(b, fpow(b, (e - 1) as nat))
    }
}

/// Field addition, at the representation level: the canonical residue as a
/// `u64`.
pub open spec fn addf(a: u64, b: u64) -> u64 {
    fadd(a as int, b as int) as u64
}

/// Field subtraction at the representation level.
pub open spec fn subf(a: u64, b: u64) -> u64 {
    fsub(a as int, b as int) as u64
}

/// Field negation at the representation level.
pub open spec fn negf(a: u64) -> u64 {
    fneg(a as int) as u64
}

/// Field multiplication at the representation level.
pub open spec fn mulf(a: u64, b: u64) -> u64 {
    fmul(a as int, b as int) as u64
}

/// Field exponentiation at the representation level.
pub open spec fn powf(b: u64, e: nat) -> u64 {
    fpow(b as int, e) as u64
}

/// The representation-level operations return canonical residues and agree
/// with the mathematical ones.
pub proof fn lemma_repr_ops(a: u64, b: u64)
    ensures
        is_fe(addf(a, b)) && addf(a, b) == fadd(a as int, b as int),
        is_fe(subf(a, b)) && subf(a, b) == fsub(a as int, b as int),
        is_fe(negf(a)) && negf(a) == fneg(a as int),
        is_fe(mulf(a, b)) && mulf(a, b) == fmul(a as int, b as int),
{
    lemma_fe_range(a as int, b as int);
}

/// The representation-level power is a canonical residue and agrees with the
/// mathematical one.
pub proof fn lemma_repr_pow(b: u64, e: nat)
    ensures
        is_fe(powf(b, e)) && powf(b, e) == fpow(b as int, e),
{
    lemma_fpow_range(b as int, e);
}

/// Field addition.
pub fn add_fe(a: u64, b: u64) -> (r: u64)
    requires
        is_fe(a),
        is_fe(b),
    ensures
        is_fe(r),
        r == fadd(a as int, b as int),
        r == addf(a, b),
{
    let s: u64 = a + b;
    if s >= P {
        proof {
            lemma_mod_sub_multiples_vanish(a + b, P as int);
            lemma_small_mod((s - P) as nat, P as nat);
        }
        s - P
    } else {
        proof {
            lemma_small_mod(s as nat, P as nat);
        }
        s
    }
}

/// Field subtraction.
pub fn sub_fe(a: u64, b: u64) -> (r: u64)
    requires
        is_fe(a),
        is_fe(b),
    ensures
        is_fe(r),
        r == fsub(a as int, b as int),
        r == subf(a, b),
{
    if a >= b {
        proof {
            lemma_small_mod((a - b) as nat, P as nat);
        }
        a - b
    } else {
        proof {
            lemma_mod_sub_multiples_vanish(a - b + P, P as int);
            lemma_small_mod((a + P - b) as nat, P as nat);
        }
        a + P - b
    }
}

/// Field negation.
pub fn neg_fe(a: u64) -> (r: u64)
    requires
        is_fe(a),
    ensures
        is_fe(r),
        r == fneg(a as int),
        r == negf(a),
{
    sub_fe(0, a)
}

/// Field multiplication. Operands below `P` keep the product within `u64`.
pub fn mul_fe(a: u64, b: u64) -> (r: u64)
    requires
        is_fe(a),
        is_fe(b),
    ensures
        is_fe(r),
        r == fmul(a as int, b as int),
        r == mulf(a, b),
{
    proof {
        assert((a as int) * (b as int) < 0x8000000000000000) by (nonlinear_arith)
            requires
                a < 2013265921,
                b < 2013265921,
        ;
        lemma_mod_bound((a * b) as int, P as int);
    }
    (a * b) % P
}

/// Results of the field operations are canonical residues.
pub proof fn lemma_fe_range(a: int, b: int)
    ensures
        0 <= fadd(a, b) < P,
        0 <= fsub(a, b) < P,
        0 <= fneg(a) < P,
        0 <= fmul(a, b) < P,
{
    lemma_mod_bound(a + b, P as int);
    lemma_mod_bound(a - b, P as int);
    lemma_mod_bound(0 - a, P as int);
    lemma_mod_bound(a * b, P as int);
}

/// A power is a canonical residue, except the zeroth, which is one.
pub proof fn lemma_fpow_range(b: int, e: nat)
    ensures
        0 <= fpow(b, e) < P,
    decreases e,
{
    if e == 0 {
    } else {
        lemma_fpow_range(b, (e - 1) as nat);
        lemma_fe_range(b, fpow(b, (e - 1) as nat));
    }
}

/// Multiplication modulo `P` ignores prior reductions of either operand.
pub proof fn lemma_fmul_noop(a: int, b: int)
    ensures
        fmul(a % (P as int), b) == fmul(a, b),
        fmul(a, b % (P as int)) == fmul(a, b),
        fmul(a % (P as int), b % (P as int)) == fmul(a, b),
{
    lemma_mul_mod_noop_general(a, b, P as int);
}

/// Field multiplication is associative.
pub proof fn lemma_fmul_assoc(a: int, b: int, c: int)
    ensures
        fmul(fmul(a, b), c) == fmul(a, fmul(b, c)),
{
    lemma_mul_mod_noop_general(a * b, c, P as int);
    lemma_mul_mod_noop_general(a, b * c, P as int);
    lemma_mul_is_associative(a, b, c);
}

/// Field multiplication is commutative.
pub proof fn lemma_fmul_comm(a: int, b: int)
    ensures
        fmul(a, b) == fmul(b, a),
{
}

/// Splitting an exponent sum into a product of powers.
pub proof fn lemma_fpow_adds(b: int, e1: nat, e2: nat)
    ensures
        fpow(b, e1 + e2) == fmul(fpow(b, e1), fpow(b, e2)),
    decreases e1,
{
    if e1 == 0 {
        lemma_fpow_range(b, e2);
        lemma_small_mod(fpow(b, e2) as nat, P as nat);
    } else {
        lemma_fpow_adds(b, (e1 - 1) as nat, e2);
        lemma_fmul_assoc(b, fpow(b, (e1 - 1) as nat), fpow(b, e2));
        lemma_fmul_noop(b * fpow(b, (e1 - 1) as nat), fpow(b, e2));
    }
}

/// An even power of `b` is the half power of `b * b`.
pub proof fn lemma_fpow_square(b: int, e: nat)
    ensures
        fpow(fmul(b, b), e) == fpow(b, 2 * e),
    decreases e,
{
    if e == 0 {
    } else {
        lemma_fpow_square(b, (e - 1) as nat);
        assert(2 * e == 2 + 2 * (e - 1));
        lemma_fpow_adds(b, 2nat, (2 * (e - 1)) as nat);
        // fpow(b, 2) == fmul(b, b) after one reduction of the inner power.
        assert(fpow(b, 2nat) == fmul(b, fmul(b, 1))) by {
            reveal_with_fuel(fpow, 3);
        }
        lemma_small_mod(1nat, P as nat);
        assert(fmul(b, 1) == b % (P as int));
        lemma_fmul_noop(b, b);
        assert(fpow(b, 2nat) == fmul(b, b));
        lemma_fmul_noop(b, b);
        lemma_fmul_noop(fmul(b, b), fpow(b, (2 * (e - 1)) as nat));
        assert(fpow(fmul(b, b), e) == fmul(fmul(b, b), fpow(fmul(b, b), (e - 1) as nat)));
    }
}

/// A power of a canonical residue, by square and multiply.
pub fn pow_fe(b: u64, e: u64) -> (r: u64)
    requires
        is_fe(b),
    ensures
        is_fe(r),
        r == fpow(b as int, e as nat),
        r == powf(b, e as nat),
{
    let mut acc: u64 = 1;
    let mut cur: u64 = b;
    let mut rem: u64 = e;
    proof {
        lemma_fpow_range(b as int, e as nat);
        lemma_small_mod(fpow(b as int, e as nat) as nat, P as nat);
        assert(fmul(1, fpow(b as int, e as nat)) == fpow(b as int, e as nat)) by {
            lemma_fpow_range(b as int, e as nat);
            lemma_small_mod(fpow(b as int, e as nat) as nat, P as nat);
        }
    }
    while rem > 0
        invariant
            is_fe(acc),
            is_fe(cur),
            fmul(acc as int, fpow(cur as int, rem as nat)) == fpow(b as int, e as nat),
        decreases rem,
    {
        if rem % 2 == 1 {
            let acc2 = mul_fe(acc, cur);
            proof {
                // fpow(cur, rem) == fmul(cur, fpow(cur, rem - 1))
                lemma_fmul_assoc(acc as int, cur as int, fpow(cur as int, (rem - 1) as nat));
            }
            acc = acc2;
        }
        let old_cur: Ghost<u64> = Ghost(cur);
        let old_rem: Ghost<u64> = Ghost(rem);
        cur = mul_fe(cur, cur);
        rem = rem / 2;
        proof {
            let oc = old_cur@ as int;
            let orm = old_rem@ as nat;
            let halved: nat = (orm / 2) as nat;
            lemma_fpow_square(oc, halved);
            if orm % 2 == 1 {
                assert(2 * halved == orm - 1);
                assert(fpow(cur as int, rem as nat) == fpow(oc, (orm - 1) as nat));
            } else {
                assert(2 * halved == orm);
                assert(fpow(cur as int, rem as nat) == fpow(oc, orm));
            }
        }
    }
    proof {
        assert(fpow(cur as int, 0) == 1);
        lemma_small_mod(acc as nat, P as nat);
        assert(fmul(acc as int, 1) == acc as int);
    }
    acc
}

/// The Fermat inverse candidate of `a`.
pub open spec fn inv_f(a: u64) -> u64 {
    powf(a, (P - 2) as nat)
}

/// Whether the Fermat candidate really inverts `a`. For nonzero `a` this is
/// Fermat's little theorem, which this development does not prove; run-time
/// checks carry it instead, and zero is provably not invertible.
pub open spec fn invertible_f(a: u64) -> bool {
    fmul(a as int, inv_f(a) as int) == 1
}

/// Every positive power of zero is zero, so zero is not invertible.
pub proof fn lemma_zero_not_invertible()
    ensures
        !invertible_f(0),
{
    assert(fpow(0, (P - 2) as nat) == 0) by {
        lemma_fpow_zero((P - 2) as nat);
    }
    assert(fmul(0, 0) == 0) by {
        assert(0int * 0 == 0);
        vstd::arithmetic::div_mod::lemma_small_mod(0nat, P as nat);
    }
}

/// A positive power of zero is zero.
pub proof fn lemma_fpow_zero(e: nat)
    requires
        e >= 1,
    ensures
        fpow(0, e) == 0,
    decreases e,
{
    if e == 1 {
        assert(fpow(0, 1) == fmul(0, 1));
        assert(0int * 1 == 0);
        vstd::arithmetic::div_mod::lemma_small_mod(0nat, P as nat);
    } else {
        lemma_fpow_zero((e - 1) as nat);
        assert(fpow(0, e) == fmul(0, fpow(0, (e - 1) as nat)));
        assert(0int * fpow(0, (e - 1) as nat) == 0) by {
            vstd::arithmetic::mul::lemma_mul_basics(fpow(0, (e - 1) as nat));
        }
        vstd::arithmetic::div_mod::lemma_small_mod(0nat, P as nat);
    }
}

/// The multiplicative inverse of `a`: exactly the Fermat candidate
/// `a^(P-2)`, returned when the run-time product check passes. `None` for
/// zero; for nonzero `a`, `Some` in fact always, but that is Fermat's
/// little theorem and only the run-time check vouches for it here.
pub fn try_inv_fe(a: u64) -> (r: Option<u64>)
    requires
        is_fe(a),
    ensures
        r matches Some(v) <==> invertible_f(a),
        r matches Some(v) ==> v == inv_f(a) && is_fe(v) && fmul(a as int, v as int) == 1 && v
            == powf(a, (P - 2) as nat),
        a == 0 ==> r is None,
{
    let cand = pow_fe(a, P - 2);
    let check = mul_fe(a, cand);
    proof {
        if a == 0 {
            lemma_zero_not_invertible();
        }
    }
    if check == 1 {
        Some(cand)
    } else {
        None
    }
}

/// Reductions of either summand do not change a sum modulo `P`.
pub proof fn lemma_fadd_noop(a: int, b: int)
    ensures
        fadd(a % (P as int), b) == fadd(a, b),
        fadd(a, b % (P as int)) == fadd(a, b),
{
    vstd::arithmetic::div_mod::lemma_add_mod_noop(a, b, P as int);
    vstd::arithmetic::div_mod::lemma_mod_twice(a, P as int);
    vstd::arithmetic::div_mod::lemma_mod_twice(b, P as int);
    vstd::arithmetic::div_mod::lemma_add_mod_noop(a % (P as int), b, P as int);
    vstd::arithmetic::div_mod::lemma_add_mod_noop(a, b % (P as int), P as int);
}

/// Reductions of either operand do not change a difference modulo `P`.
pub proof fn lemma_fsub_noop(a: int, b: int)
    ensures
        fsub(a % (P as int), b) == fsub(a, b),
        fsub(a, b % (P as int)) == fsub(a, b),
{
    vstd::arithmetic::div_mod::lemma_sub_mod_noop(a, b, P as int);
    vstd::arithmetic::div_mod::lemma_mod_twice(a, P as int);
    vstd::arithmetic::div_mod::lemma_mod_twice(b, P as int);
    vstd::arithmetic::div_mod::lemma_sub_mod_noop(a % (P as int), b, P as int);
    vstd::arithmetic::div_mod::lemma_sub_mod_noop(a, b % (P as int), P as int);
}

/// Multiplying by a product that is one modulo `P` reduces to a reduction.
pub proof fn lemma_fmul_cancel(t: int, a: int, b: int)
    requires
        fmul(a, b) == 1,
    ensures
        (t * (a * b)) % (P as int) == t % (P as int),
{
    lemma_fmul_noop(t, a * b);
    // fmul(t, a * b) == fmul(t, (a * b) % P) == fmul(t, 1).
    assert(fmul(t, (a * b) % (P as int)) == fmul(t, 1)) by {
        assert((a * b) % (P as int) == 1);
    }
    assert(t * 1 == t);
}

/// `INV2` is the inverse of two.
pub proof fn lemma_inv2()
    ensures
        fmul(2, INV2 as int) == 1,
        is_fe(INV2),
{
    assert(2 * (INV2 as int) == P + 1);
    lemma_mod_sub_multiples_vanish(P + 1, P as int);
    lemma_small_mod(1nat, P as nat);
}

} // verus!
