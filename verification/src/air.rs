//! The algebraic-intermediate-representation (AIR) capability: a constraint
//! system exposes its trace width and a folded evaluation of its constraints
//! at one pair of rows, with selector values and a folding challenge
//! supplied by the caller. The prover evaluates it in bulk over a blown-up
//! domain; the verifier evaluates it once at an out-of-domain point.

use vstd::prelude::*;
use crate::field::{is_fe, all_fe, addf, subf, mulf, add_fe, sub_fe, mul_fe};

verus! {

/// A constraint system over a trace. `eval` folds every constraint into one
/// field element: each constraint value, multiplied by its selector where it
/// only applies to some rows, is absorbed into a running Horner accumulator
/// over the folding challenge `alpha`.
pub trait Air {
    /// The number of trace columns.
    spec fn spec_width(&self) -> int;

    /// What the folded constraint evaluation is, as mathematics.
    spec fn spec_eval(
        &self,
        local: Seq<u64>,
        next: Seq<u64>,
        is_first: u64,
        is_last: u64,
        is_transition: u64,
        alpha: u64,
        public_values: Seq<u64>,
    ) -> u64;

    /// The number of trace columns.
    fn width(&self) -> (w: usize)
        ensures
            w == self.spec_width(),
            1 <= w <= 1024,
    ;

    /// The folded constraint evaluation on one pair of adjacent rows.
    fn eval(
        &self,
        local: &Vec<u64>,
        next: &Vec<u64>,
        is_first: u64,
        is_last: u64,
        is_transition: u64,
        alpha: u64,
        public_values: &Vec<u64>,
    ) -> (r: u64)
        requires
            local@.len() == self.spec_width(),
            next@.len() == self.spec_width(),
            all_fe(local@),
            all_fe(next@),
            is_fe(is_first),
            is_fe(is_last),
            is_fe(is_transition),
            is_fe(alpha),
            all_fe(public_values@),
        ensures
            is_fe(r),
            r == self.spec_eval(
                local@,
                next@,
                is_first,
                is_last,
                is_transition,
                alpha,
                public_values@,
            ),
    ;
}

/// The number of columns of the Fibonacci trace.
pub const NUM_FIBONACCI_COLS: usize = 3;

/// An AIR for the Fibonacci recurrence: each row holds `(a, b, c)` with
/// `a + b == c`, the first row holds `a == b == 1`, and each transition
/// carries `next.a == b` and `next.b == c`.
pub struct FibonacciAir {}

/// The named columns of one Fibonacci trace row.
#[derive(Clone, Debug)]
pub struct FibonacciCols<T> {
    pub a: T,
    pub b: T,
    pub c: T,
}

impl FibonacciCols<u64> {
    /// Reads a width-three row into named columns: index zero is `a`, one
    /// is `b`, two is `c`.
    pub fn from_row(row: &Vec<u64>) -> (cols: FibonacciCols<u64>)
        requires
            row@.len() == NUM_FIBONACCI_COLS,
        ensures
            cols.a == row@[0],
            cols.b == row@[1],
            cols.c == row@[2],
    {
        FibonacciCols { a: row[0], b: row[1], c: row[2] }
    }
}

impl Air for FibonacciAir {
    open spec fn spec_width(&self) -> int {
        NUM_FIBONACCI_COLS as int
    }

    open spec fn spec_eval(
        &self,
        local: Seq<u64>,
        next: Seq<u64>,
        is_first: u64,
        is_last: u64,
        is_transition: u64,
        alpha: u64,
        public_values: Seq<u64>,
    ) -> u64 {
        let sum = subf(addf(local[0], local[1]), local[2]);
        let first_a = mulf(is_first, subf(local[0], 1));
        let first_b = mulf(is_first, subf(local[1], 1));
        let trans_a = mulf(is_transition, subf(next[0], local[1]));
        let trans_b = mulf(is_transition, subf(next[1], local[2]));
        let acc0 = sum;
        let acc1 = addf(mulf(acc0, alpha), first_a);
        let acc2 = addf(mulf(acc1, alpha), first_b);
        let acc3 = addf(mulf(acc2, alpha), trans_a);
        addf(mulf(acc3, alpha), trans_b)
    }

    fn width(&self) -> (w: usize) {
        NUM_FIBONACCI_COLS
    }

    fn eval(
        &self,
        local: &Vec<u64>,
        next: &Vec<u64>,
        is_first: u64,
        is_last: u64,
        is_transition: u64,
        alpha: u64,
        public_values: &Vec<u64>,
    ) -> (r: u64) {
        let l = FibonacciCols::from_row(local);
        let n = FibonacciCols::from_row(next);
        let sum = sub_fe(add_fe(l.a, l.b), l.c);
        let first_a = mul_fe(is_first, sub_fe(l.a, 1));
        let first_b = mul_fe(is_first, sub_fe(l.b, 1));
        let trans_a = mul_fe(is_transition, sub_fe(n.a, l.b));
        let trans_b = mul_fe(is_transition, sub_fe(n.b, l.c));
        let mut acc = sum;
        acc = add_fe(mul_fe(acc, alpha), first_a);
        acc = add_fe(mul_fe(acc, alpha), first_b);
        acc = add_fe(mul_fe(acc, alpha), trans_a);
        acc = add_fe(mul_fe(acc, alpha), trans_b);
        acc
    }
}

/// The Fibonacci trace: `rows` rows of `(a, b, c)` with `c == a + b`, each
/// transition carrying `(a, b)` forward to `(b, c)`, starting from
/// `(1, 1, 2)`.
pub fn generate_fibonacci_trace(rows: usize) -> (m: Option<crate::matrix::RowMajorMatrix>)
    requires
        1 <= rows <= 1048576,
    ensures
        m is Some,
        match m {
            Some(m) => {
                &&& m.wf()
                &&& m.spec_width() == NUM_FIBONACCI_COLS
                &&& m.spec_height() == rows
                &&& m.spec_get(0, 0) == 1u64 && m.spec_get(0, 1) == 1u64
                &&& forall|r: int|
                    0 <= r < rows ==> #[trigger] m.spec_get(r, 2) == addf(
                        m.spec_get(r, 0),
                        m.spec_get(r, 1),
                    )
                &&& forall|r: int|
                    1 <= r < rows ==> #[trigger] m.spec_get(r, 0) == m.spec_get(r - 1, 1)
                        && m.spec_get(r, 1) == m.spec_get(r - 1, 2)
            },
            None => false,
        },
{
    let mut vals: Vec<u64> = Vec::new();
    let mut a: u64 = 1;
    let mut b: u64 = 1;
    let mut i: usize = 0;
    while i < rows
        invariant
            is_fe(a),
            is_fe(b),
            i <= rows,
            vals@.len() == 3 * i,
            all_fe(vals@),
            i == 0 ==> a == 1u64 && b == 1u64,
            i > 0 ==> a == vals@[3 * (i - 1) + 1] && b == vals@[3 * (i - 1) + 2],
            i > 0 ==> vals@[0] == 1u64 && vals@[1] == 1u64,
            forall|r: int|
                0 <= r < i ==> #[trigger] vals@[3 * r + 2] == addf(
                    vals@[3 * r],
                    vals@[3 * r + 1],
                ),
            forall|r: int|
                1 <= r < i ==> #[trigger] vals@[3 * r] == vals@[3 * (r - 1) + 1] && vals@[3 * r
                    + 1] == vals@[3 * (r - 1) + 2],
        decreases rows - i,
    {
        let c = add_fe(a, b);
        vals.push(a);
        vals.push(b);
        vals.push(c);
        proof {
            assert(vals@[3 * i as int] == a);
            assert(vals@[3 * i as int + 1] == b);
            assert(vals@[3 * i as int + 2] == c);
        }
        a = b;
        b = c;
        i += 1;
    }
    let m = crate::matrix::RowMajorMatrix::new(vals, NUM_FIBONACCI_COLS);
    proof {
        if m is Some {
            let mm = m->Some_0;
            assert(mm.spec_height() == rows) by {
                vstd::arithmetic::div_mod::lemma_div_multiples_vanish(rows as int, 3);
                vstd::arithmetic::mul::lemma_mul_is_commutative(rows as int, 3);
            }
            assert forall|r: int, c: int| 0 <= r < rows && 0 <= c < 3 implies #[trigger] mm
                .spec_get(r, c) == vals@[3 * r + c] by {
                assert(mm.spec_get(r, c) == mm.values@[r * 3 + c]);
            }
        } else {
            assert(3 * rows as int % 3 == 0) by {
                vstd::arithmetic::div_mod::lemma_mod_multiples_basic(rows as int, 3);
                vstd::arithmetic::mul::lemma_mul_is_commutative(rows as int, 3);
            }
            assert(false);
        }
    }
    m
}

} // verus!
