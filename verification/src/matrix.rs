//! Dense matrix and vector primitives over fixed-point values.
use vstd::prelude::*;

use crate::fixed::fp_mul;
use crate::fixed::lemma_sum_take_step;
use crate::fixed::mul_fp;
use crate::fixed::sum;
use crate::SCALE;

verus! {

/// Number of columns of a matrix given as a sequence of rows: the width of
/// the first row, or zero for a matrix without rows.
pub open spec fn cols_of(m: Seq<Seq<u64>>) -> int {
    if m.len() == 0 {
        0
    } else {
        m[0].len() as int
    }
}

/// Every row has the width of the first one.
pub open spec fn is_rectangular(m: Seq<Seq<u64>>) -> bool {
    forall|i: int| 0 <= i < m.len() ==> (#[trigger] m[i]).len() == cols_of(m)
}

/// Every entry denotes a fraction of at most one, that is, stays below the
/// fixed-point scale.
pub open spec fn entries_le_scale(m: Seq<Seq<u64>>) -> bool {
    forall|i: int, j: int|
        0 <= i < m.len() && 0 <= j < m[i].len() ==> #[trigger] m[i][j] <= SCALE
}

/// Fixed-point dot product: the sum of the entrywise fixed-point products of
/// two sequences of equal length.
pub open spec fn dot_fp(row: Seq<u64>, b: Seq<u64>) -> int
    recommends
        row.len() == b.len(),
    decreases row.len(),
{
    if row.len() == 0 {
        0
    } else {
        dot_fp(row.drop_last(), b.drop_last()) + mul_fp(row.last() as int, b.last() as int)
    }
}

/// Dense two-dimensional array of fixed-point values, stored row by row.
pub struct Matrix {
    dat: Vec<Vec<u64>>,
}

impl View for Matrix {
    type V = Seq<Seq<u64>>;

    closed spec fn view(&self) -> Seq<Seq<u64>> {
        self.dat@.map_values(|r: Vec<u64>| r@)
    }
}

impl Matrix {
    /// Wraps a non-empty rectangular array of rows as a matrix.
    pub fn new(dat: Vec<Vec<u64>>) -> (r: Self)
        requires
            dat@.len() > 0,
            forall|i: int| 0 <= i < dat@.len() ==> (#[trigger] dat@[i])@.len() == dat@[0]@.len(),
        ensures
            r@.len() == dat@.len(),
            forall|i: int| 0 <= i < dat@.len() ==> #[trigger] r@[i] == dat@[i]@,
            is_rectangular(r@),
    {
        let r = Self { dat };
        proof {
            assert(forall|i: int| 0 <= i < r.dat@.len() ==> #[trigger] r@[i] == r.dat@[i]@);
        }
        r
    }

    /// Matrix of zeros with `size.0` columns and `size.1` rows.
    pub fn zeros(size: (usize, usize)) -> (r: Self)
        ensures
            r@.len() == size.1,
            forall|i: int| 0 <= i < size.1 ==> (#[trigger] r@[i]).len() == size.0,
            forall|i: int, j: int| 0 <= i < size.1 && 0 <= j < size.0 ==> #[trigger] r@[i][j] == 0,
            is_rectangular(r@),
    {
        let mut dat: Vec<Vec<u64>> = Vec::new();
        let mut i: usize = 0;
        while i < size.1
            invariant
                i <= size.1,
                dat@.len() == i,
                forall|k: int| 0 <= k < i ==> (#[trigger] dat@[k])@.len() == size.0,
                forall|k: int, j: int|
                    0 <= k < i && 0 <= j < size.0 ==> #[trigger] dat@[k]@[j] == 0,
            decreases size.1 - i,
        {
            let mut row: Vec<u64> = Vec::new();
            let mut j: usize = 0;
            while j < size.0
                invariant
                    j <= size.0,
                    row@.len() == j,
                    forall|k: int| 0 <= k < j ==> #[trigger] row@[k] == 0,
                decreases size.0 - j,
            {
                row.push(0);
                j = j + 1;
            }
            dat.push(row);
            i = i + 1;
        }
        let r = Self { dat };
        proof {
            assert(forall|i: int| 0 <= i < r.dat@.len() ==> #[trigger] r@[i] == r.dat@[i]@);
        }
        r
    }

    /// Number of rows.
    pub fn num_rows(&self) -> (r: usize)
        ensures
            r == self@.len(),
    {
        self.dat.len()
    }

    /// Number of columns.
    pub fn num_cols(&self) -> (r: usize)
        requires
            is_rectangular(self@),
        ensures
            r == cols_of(self@),
    {
        if self.dat.len() == 0 {
            0
        } else {
            self.dat[0].len()
        }
    }

    /// Width of row `i`, with nothing assumed about the matrix's shape.
    pub fn row_len(&self, i: usize) -> (r: usize)
        requires
            0 <= i < self@.len(),
        ensures
            r == self@[i as int].len(),
    {
        proof {
            assert(self.dat@[i as int]@ == self@[i as int]);
        }
        self.dat[i].len()
    }

    /// Entry in row `i`, column `j`.
    pub fn entry(&self, i: usize, j: usize) -> (r: u64)
        requires
            0 <= i < self@.len(),
            0 <= j < self@[i as int].len(),
        ensures
            r == self@[i as int][j as int],
    {
        self.dat[i][j]
    }

    /// Mirror of the matrix along its diagonal: entry `(i, j)` of the result
    /// is entry `(j, i)` of the argument.
    pub fn transpose(self) -> (r: Self)
        requires
            is_rectangular(self@),
        ensures
            r@.len() == cols_of(self@),
            is_rectangular(r@),
            cols_of(r@) == (if cols_of(self@) == 0 { 0int } else { self@.len() as int }),
            forall|i: int, j: int|
                0 <= i < cols_of(self@) && 0 <= j < self@.len() ==> #[trigger] r@[i][j]
                    == self@[j][i],
    {
        let rows = self.dat.len();
        let cols = self.num_cols();
        let mut dat: Vec<Vec<u64>> = Vec::new();
        let mut i: usize = 0;
        while i < cols
            invariant
                i <= cols,
                cols == cols_of(self@),
                rows == self@.len(),
                is_rectangular(self@),
                dat@.len() == i,
                forall|k: int| 0 <= k < i ==> #[trigger] dat@[k]@.len() == rows,
                forall|k: int, j: int|
                    0 <= k < i && 0 <= j < rows ==> #[trigger] dat@[k]@[j] == self@[j][k],
            decreases cols - i,
        {
            let mut row: Vec<u64> = Vec::new();
            let mut j: usize = 0;
            while j < rows
                invariant
                    j <= rows,
                    i < cols,
                    cols == cols_of(self@),
                    rows == self@.len(),
                    is_rectangular(self@),
                    row@.len() == j,
                    forall|l: int| 0 <= l < j ==> #[trigger] row@[l] == self@[l][i as int],
                decreases rows - j,
            {
                proof {
                    assert(self.dat@.len() == self@.len());
                    assert(self.dat@[j as int]@ == self@[j as int]);
                }
                row.push(self.dat[j][i]);
                j = j + 1;
            }
            dat.push(row);
            i = i + 1;
        }
        let r = Self { dat };
        proof {
            assert(forall|k: int| 0 <= k < r.dat@.len() ==> #[trigger] r@[k] == r.dat@[k]@);
        }
        r
    }

    /// Matrix-vector product in fixed point: entry `i` of the result is the
    /// fixed-point dot product of row `i` with `b`.
    pub fn mul_add(&self, b: &Vec<u64>) -> (r: Vec<u64>)
        requires
            is_rectangular(self@),
            b@.len() == cols_of(self@),
            entries_le_scale(self@),
            sum(b@) <= u64::MAX,
        ensures
            r@.len() == self@.len(),
            forall|i: int| 0 <= i < self@.len() ==> #[trigger] r@[i] == dot_fp(self@[i], b@),
    {
        let rows = self.dat.len();
        let mut res: Vec<u64> = Vec::new();
        let mut i: usize = 0;
        while i < rows
            invariant
                i <= rows,
                rows == self@.len(),
                is_rectangular(self@),
                b@.len() == cols_of(self@),
                entries_le_scale(self@),
                sum(b@) <= u64::MAX,
                res@.len() == i,
                forall|k: int| 0 <= k < i ==> #[trigger] res@[k] == dot_fp(self@[k], b@),
            decreases rows - i,
        {
            proof {
                assert(self.dat@.len() == self@.len());
                assert(self.dat@[i as int]@ == self@[i as int]);
            }
            let v = dot_row(&self.dat[i], b);
            res.push(v);
            i = i + 1;
        }
        res
    }
}

/// Fixed-point dot product of two equally long vectors; the running total is
/// bounded by the sum of `b`, so it stays within `u64`.
fn dot_row(row: &Vec<u64>, b: &Vec<u64>) -> (r: u64)
    requires
        row@.len() == b@.len(),
        forall|j: int| 0 <= j < row@.len() ==> #[trigger] row@[j] <= SCALE,
        sum(b@) <= u64::MAX,
    ensures
        r == dot_fp(row@, b@),
        r <= sum(b@),
{
    let n = row.len();
    let mut acc: u64 = 0;
    let mut j: usize = 0;
    proof {
        assert(row@.take(0) =~= Seq::<u64>::empty());
        assert(b@.take(0) =~= Seq::<u64>::empty());
    }
    while j < n
        invariant
            j <= n,
            n == row@.len(),
            n == b@.len(),
            forall|k: int| 0 <= k < n ==> #[trigger] row@[k] <= SCALE,
            sum(b@) <= u64::MAX,
            acc == dot_fp(row@.take(j as int), b@.take(j as int)),
            acc <= sum(b@.take(j as int)),
        decreases n - j,
    {
        let term = fp_mul(row[j], b[j]);
        proof {
            lemma_sum_take_step(b@, j as int);
            crate::fixed::lemma_sum_take_le(b@, j as int + 1);
            assert(row@.take(j as int + 1).drop_last() =~= row@.take(j as int));
            assert(b@.take(j as int + 1).drop_last() =~= b@.take(j as int));
            assert(row@.take(j as int + 1).last() == row@[j as int]);
            assert(b@.take(j as int + 1).last() == b@[j as int]);
        }
        acc = acc + term;
        j = j + 1;
    }
    proof {
        assert(row@.take(n as int) =~= row@);
        assert(b@.take(n as int) =~= b@);
    }
    acc
}

/// Dense one-dimensional array of fixed-point values.
pub struct Vector {
    dat: Vec<u64>,
}

impl View for Vector {
    type V = Seq<u64>;

    closed spec fn view(&self) -> Seq<u64> {
        self.dat@
    }
}

impl Vector {
    /// Wraps a vector of fixed-point values.
    pub fn new(vector: Vec<u64>) -> (r: Self)
        ensures
            r@ == vector@,
    {
        Self { dat: vector }
    }

    /// Hands the underlying values back.
    pub fn data(self) -> (r: Vec<u64>)
        ensures
            r@ == self@,
    {
        self.dat
    }

    /// Fixed-point multiplication of every entry by a scalar of at most one.
    pub fn mul(&self, scalar: u64) -> (r: Self)
        requires
            scalar <= SCALE,
        ensures
            r@.len() == self@.len(),
            forall|i: int| 0 <= i < self@.len() ==> #[trigger] r@[i]
                == mul_fp(scalar as int, self@[i] as int),
    {
        let n = self.dat.len();
        let mut dat: Vec<u64> = Vec::new();
        let mut i: usize = 0;
        while i < n
            invariant
                i <= n,
                n == self@.len(),
                scalar <= SCALE,
                dat@.len() == i,
                forall|k: int| 0 <= k < i ==> #[trigger] dat@[k]
                    == mul_fp(scalar as int, self@[k] as int),
            decreases n - i,
        {
            dat.push(fp_mul(scalar, self.dat[i]));
            i = i + 1;
        }
        Self { dat }
    }

    /// Entrywise addition of two vectors of the same length.
    pub fn add(&self, other: Self) -> (r: Self)
        requires
            other@.len() == self@.len(),
            forall|i: int| 0 <= i < self@.len() ==> self@[i] + other@[i] <= u64::MAX,
        ensures
            r@.len() == self@.len(),
            forall|i: int| 0 <= i < self@.len() ==> #[trigger] r@[i] == self@[i] + other@[i],
    {
        let n = self.dat.len();
        let mut dat: Vec<u64> = Vec::new();
        let mut i: usize = 0;
        while i < n
            invariant
                i <= n,
                n == self@.len(),
                other@.len() == n,
                forall|k: int| 0 <= k < n ==> self@[k] + other@[k] <= u64::MAX,
                dat@.len() == i,
                forall|k: int| 0 <= k < i ==> #[trigger] dat@[k] == self@[k] + other@[k],
            decreases n - i,
        {
            proof {
                assert(self@[i as int] + other@[i as int] <= u64::MAX);
            }
            dat.push(self.dat[i] + other.dat[i]);
            i = i + 1;
        }
        Self { dat }
    }
}

} // verus!
