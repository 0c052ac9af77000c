//! Dense row-major matrices of field elements: the unit of data the
//! commitment scheme works on. Width and height are fixed at construction.

use vstd::prelude::*;
use vstd::arithmetic::mul::{lemma_mul_inequality, lemma_mul_is_distributive_add_other_way};
use crate::field::{is_fe, all_fe, P};

verus! {

/// A row-major rectangular table of field elements.
pub struct RowMajorMatrix {
    pub values: Vec<u64>,
    pub width: usize,
}

/// The width and height of one matrix, as a verifier learns them.
#[derive(Clone, Copy, PartialEq, Eq, Structural)]
pub struct Dimensions {
    pub width: usize,
    pub height: usize,
}

impl RowMajorMatrix {
    /// The number of columns.
    pub open spec fn spec_width(self) -> int {
        self.width as int
    }

    /// The number of rows.
    pub open spec fn spec_height(self) -> int {
        self.values.len() as int / self.width as int
    }

    /// A well-formed matrix has a positive width, a value buffer that is an
    /// exact number of rows, and canonical field elements throughout.
    pub open spec fn wf(self) -> bool {
        &&& self.width > 0
        &&& self.values.len() == self.spec_height() * self.spec_width()
        &&& all_fe(self.values@)
    }

    /// Row `r`, as the mathematics sees it.
    pub open spec fn spec_row(self, r: int) -> Seq<u64> {
        self.values@.subrange(r * self.spec_width(), r * self.spec_width() + self.spec_width())
    }

    /// All rows, top to bottom.
    pub open spec fn spec_rows(self) -> Seq<Seq<u64>> {
        Seq::new(self.spec_height() as nat, |r: int| self.spec_row(r))
    }

    /// Entry at row `r`, column `c`.
    pub open spec fn spec_get(self, r: int, c: int) -> u64 {
        self.values@[r * self.spec_width() + c]
    }

    /// Builds a matrix from a row-major value buffer, rejecting a zero
    /// width, a ragged buffer, a zero height, and out-of-range values.
    pub fn new(values: Vec<u64>, width: usize) -> (r: Option<RowMajorMatrix>)
        ensures
            match r {
                Some(m) => {
                    &&& m.wf()
                    &&& m.spec_width() == width
                    &&& m.values@ == values@
                    &&& m.spec_height() > 0
                },
                None => width == 0 || values.len() == 0 || values.len() as int % (width as int) != 0
                    || !all_fe(values@),
            },
    {
        if width == 0 || values.len() == 0 || values.len() % width != 0 {
            return None;
        }
        let mut i: usize = 0;
        while i < values.len()
            invariant
                i <= values.len(),
                forall|j: int| 0 <= j < i ==> is_fe(#[trigger] values@[j]),
            decreases values.len() - i,
        {
            if values[i] >= P {
                return None;
            }
            i += 1;
        }
        proof {
            let w = width as int;
            let l = values.len() as int;
            vstd::arithmetic::div_mod::lemma_fundamental_div_mod(l, w);
            assert(l == w * (l / w));
            vstd::arithmetic::mul::lemma_mul_is_commutative(w, l / w);
            if l / w == 0 {
                assert(w * (l / w) == 0);
            }
        }
        Some(RowMajorMatrix { values, width })
    }

    /// The number of columns.
    pub fn width(&self) -> (w: usize)
        ensures
            w == self.spec_width(),
    {
        self.width
    }

    /// The number of rows.
    pub fn height(&self) -> (h: usize)
        requires
            self.wf(),
        ensures
            h == self.spec_height(),
    {
        self.values.len() / self.width
    }

    /// Row indices start at `0`; entry access stays inside the buffer.
    proof fn lemma_row_in_bounds(self, r: int)
        requires
            self.wf(),
            0 <= r < self.spec_height(),
        ensures
            0 <= r * self.spec_width(),
            r * self.spec_width() + self.spec_width() <= self.values.len(),
    {
        let w = self.spec_width();
        let h = self.spec_height();
        lemma_mul_inequality(r + 1, h, w);
        lemma_mul_is_distributive_add_other_way(w, r, 1);
        vstd::arithmetic::mul::lemma_mul_nonnegative(r, w);
    }

    /// Entry at row `r`, column `c`.
    pub fn get(&self, r: usize, c: usize) -> (v: u64)
        requires
            self.wf(),
            r < self.spec_height(),
            c < self.spec_width(),
        ensures
            v == self.spec_get(r as int, c as int),
            is_fe(v),
    {
        proof {
            self.lemma_row_in_bounds(r as int);
        }
        self.values[r * self.width + c]
    }

    /// A copy of row `r`.
    pub fn row(&self, r: usize) -> (row: Vec<u64>)
        requires
            self.wf(),
            r < self.spec_height(),
        ensures
            row@ == self.spec_row(r as int),
            row@.len() == self.spec_width(),
            all_fe(row@),
    {
        proof {
            self.lemma_row_in_bounds(r as int);
        }
        let start = r * self.width;
        let mut out: Vec<u64> = Vec::new();
        let mut c: usize = 0;
        while c < self.width
            invariant
                self.wf(),
                r < self.spec_height(),
                start == r as int * self.spec_width(),
                start + self.spec_width() <= self.values.len(),
                c <= self.width,
                out@ == self.values@.subrange(start as int, start + c),
            decreases self.width - c,
        {
            out.push(self.values[start + c]);
            proof {
                assert(out@ =~= self.values@.subrange(start as int, start + c + 1));
            }
            c += 1;
        }
        proof {
            assert(out@ =~= self.spec_row(r as int));
        }
        out
    }

    /// The dimensions of this matrix.
    pub fn dimensions(&self) -> (d: Dimensions)
        requires
            self.wf(),
        ensures
            d.width == self.spec_width(),
            d.height == self.spec_height(),
    {
        Dimensions { width: self.width, height: self.height() }
    }

    /// Each row has the matrix's width and holds field elements.
    pub proof fn lemma_rows_wf(self, r: int)
        requires
            self.wf(),
            0 <= r < self.spec_height(),
        ensures
            self.spec_row(r).len() == self.spec_width(),
            all_fe(self.spec_row(r)),
    {
        self.lemma_row_in_bounds(r);
    }
}

} // verus!
