//! Construction of the local trust matrix over a vicinity.
//!
//! Row `i` of the matrix is the outgoing trust distribution of vicinity
//! address `i`. The steps, in this order: aggregate per-edge transaction
//! value into raw cells (a cell whose target equals the optional excluded
//! address stays zero); replace rows whose raw sum is zero — dangling
//! nodes — with all ones; clear the diagonal; normalize each row by its
//! remaining sum. A row whose remaining sum is zero (a node whose only
//! weight sat on the diagonal or on the excluded target) is left all zero.
use vstd::prelude::*;

use crate::explore::TxRecord;
use crate::fixed::lemma_div_subadd;
use crate::fixed::lemma_div_superadd;
use crate::fixed::sum;
use crate::matrix::cols_of;
use crate::matrix::entries_le_scale;
use crate::matrix::is_rectangular;
use crate::matrix::Matrix;
use crate::SCALE;

verus! {

/// Sum of the values of all records that flow from `from` to `to`.
pub open spec fn weight_of(records: Seq<TxRecord>, from: Seq<char>, to: Seq<char>) -> int
    decreases records.len(),
{
    if records.len() == 0 {
        0
    } else {
        weight_of(records.drop_last(), from, to) + if records.last().from@ == from
            && records.last().to@ == to {
            records.last().value as int
        } else {
            0
        }
    }
}

/// The optional excluded target address, as a mathematical value.
pub open spec fn excl_of(e: Option<&String>) -> Option<Seq<char>> {
    match e {
        Option::Some(s) => Option::Some(s@),
        Option::None => Option::None,
    }
}

/// Whether trust toward `target` is discarded.
pub open spec fn is_excluded(target: Seq<char>, excl: Option<Seq<char>>) -> bool {
    match excl {
        Option::Some(a) => target == a,
        Option::None => false,
    }
}

/// Raw cell `(i, j)`: the aggregated weight from vicinity address `i` to
/// vicinity address `j`, or zero when `j` is the excluded target.
pub open spec fn fill_weight(
    vic: Seq<String>,
    records: Seq<TxRecord>,
    excl: Option<Seq<char>>,
    i: int,
    j: int,
) -> int {
    if is_excluded(vic[j]@, excl) {
        0
    } else {
        weight_of(records, vic[i]@, vic[j]@)
    }
}

/// Sum of the first `j` raw cells of row `i`.
pub open spec fn fill_prefix(
    vic: Seq<String>,
    records: Seq<TxRecord>,
    excl: Option<Seq<char>>,
    i: int,
    j: int,
) -> int
    decreases j,
{
    if j <= 0 {
        0
    } else {
        fill_prefix(vic, records, excl, i, j - 1) + fill_weight(vic, records, excl, i, j - 1)
    }
}

/// A dangling row: no raw weight at all, self-trust included.
pub open spec fn row_dangling(
    vic: Seq<String>,
    records: Seq<TxRecord>,
    excl: Option<Seq<char>>,
    i: int,
) -> bool {
    fill_prefix(vic, records, excl, i, vic.len() as int) == 0
}

/// Cell `(i, j)` after the dangling fallback and the diagonal clearing,
/// before normalization.
pub open spec fn base_weight(
    vic: Seq<String>,
    records: Seq<TxRecord>,
    excl: Option<Seq<char>>,
    i: int,
    j: int,
) -> int {
    if j == i {
        0
    } else if row_dangling(vic, records, excl, i) {
        1
    } else {
        fill_weight(vic, records, excl, i, j)
    }
}

/// Sum of the first `j` cells of row `i` after fallback and clearing.
pub open spec fn base_prefix(
    vic: Seq<String>,
    records: Seq<TxRecord>,
    excl: Option<Seq<char>>,
    i: int,
    j: int,
) -> int
    decreases j,
{
    if j <= 0 {
        0
    } else {
        base_prefix(vic, records, excl, i, j - 1) + base_weight(vic, records, excl, i, j - 1)
    }
}

/// The normalizer of row `i`: its full sum after fallback and clearing.
pub open spec fn base_row_sum(
    vic: Seq<String>,
    records: Seq<TxRecord>,
    excl: Option<Seq<char>>,
    i: int,
) -> int {
    base_prefix(vic, records, excl, i, vic.len() as int)
}

/// Final cell `(i, j)` of the local trust matrix: the cleared cell divided
/// by its row's sum, in fixed point; zero if the whole row is zero.
pub open spec fn trust_cell(
    vic: Seq<String>,
    records: Seq<TxRecord>,
    excl: Option<Seq<char>>,
    i: int,
    j: int,
) -> int {
    let r = base_row_sum(vic, records, excl, i);
    if r == 0 {
        0
    } else {
        base_weight(vic, records, excl, i, j) * SCALE / r
    }
}

/// Aggregated edge weights are never negative.
pub proof fn lemma_weight_of_nonneg(records: Seq<TxRecord>, from: Seq<char>, to: Seq<char>)
    ensures
        0 <= weight_of(records, from, to),
    decreases records.len(),
{
    if records.len() > 0 {
        lemma_weight_of_nonneg(records.drop_last(), from, to);
    }
}

/// Cleared cells are never negative.
pub proof fn lemma_base_weight_nonneg(
    vic: Seq<String>,
    records: Seq<TxRecord>,
    excl: Option<Seq<char>>,
    i: int,
    j: int,
)
    ensures
        0 <= base_weight(vic, records, excl, i, j),
{
    lemma_weight_of_nonneg(records, vic[i]@, vic[j]@);
}

/// Prefix sums of a cleared row grow with the prefix.
pub proof fn lemma_base_prefix_mono(
    vic: Seq<String>,
    records: Seq<TxRecord>,
    excl: Option<Seq<char>>,
    i: int,
    j1: int,
    j2: int,
)
    requires
        0 <= j1 <= j2,
    ensures
        base_prefix(vic, records, excl, i, j1) <= base_prefix(vic, records, excl, i, j2),
    decreases j2 - j1,
{
    if j1 < j2 {
        lemma_base_prefix_mono(vic, records, excl, i, j1, j2 - 1);
        lemma_base_weight_nonneg(vic, records, excl, i, j2 - 1);
    }
}

/// Every cleared cell is bounded by its row's sum.
pub proof fn lemma_base_weight_le_sum(
    vic: Seq<String>,
    records: Seq<TxRecord>,
    excl: Option<Seq<char>>,
    i: int,
    j: int,
)
    requires
        0 <= j < vic.len(),
    ensures
        base_weight(vic, records, excl, i, j) <= base_row_sum(vic, records, excl, i),
{
    lemma_base_prefix_mono(vic, records, excl, i, 0, j);
    lemma_base_prefix_mono(vic, records, excl, i, j + 1, vic.len() as int);
}

/// Every cell of the normalized matrix lies between zero and one.
pub proof fn lemma_trust_cell_bounds(
    vic: Seq<String>,
    records: Seq<TxRecord>,
    excl: Option<Seq<char>>,
    i: int,
    j: int,
)
    requires
        0 <= j < vic.len(),
    ensures
        0 <= trust_cell(vic, records, excl, i, j) <= SCALE,
{
    let r = base_row_sum(vic, records, excl, i);
    if r != 0 {
        lemma_base_weight_le_sum(vic, records, excl, i, j);
        lemma_base_weight_nonneg(vic, records, excl, i, j);
        lemma_base_prefix_mono(vic, records, excl, i, 0, vic.len() as int);
        let bw = base_weight(vic, records, excl, i, j);
        assert(bw * SCALE <= r * SCALE) by (nonlinear_arith)
            requires
                0 <= bw <= r,
        ;
        assert(bw * SCALE >= 0) by (nonlinear_arith)
            requires
                0 <= bw,
        ;
        vstd::arithmetic::div_mod::lemma_div_is_ordered(bw * SCALE, r * SCALE, r);
        assert(r * SCALE / r == SCALE) by (nonlinear_arith)
            requires
                r > 0,
        ;
        vstd::arithmetic::div_mod::lemma_div_pos_is_pos(bw * SCALE, r);
    }
}

/// Sum of the first `j` cells of a normalized row.
pub open spec fn trust_row_prefix(
    vic: Seq<String>,
    records: Seq<TxRecord>,
    excl: Option<Seq<char>>,
    i: int,
    j: int,
) -> int
    decreases j,
{
    if j <= 0 {
        0
    } else {
        trust_row_prefix(vic, records, excl, i, j - 1) + trust_cell(vic, records, excl, i, j - 1)
    }
}

/// A normalized row whose normalizer vanished is all zero.
pub proof fn lemma_trust_row_prefix_zero(
    vic: Seq<String>,
    records: Seq<TxRecord>,
    excl: Option<Seq<char>>,
    i: int,
    j: int,
)
    requires
        0 <= j,
        base_row_sum(vic, records, excl, i) == 0,
    ensures
        trust_row_prefix(vic, records, excl, i, j) == 0,
    decreases j,
{
    if j > 0 {
        lemma_trust_row_prefix_zero(vic, records, excl, i, j - 1);
    }
}

/// Partial sums of a normalized row track the normalized partial weights:
/// never above `base_prefix * SCALE / sum`, and below it by at most one
/// rounding unit per off-diagonal cell taken so far.
pub proof fn lemma_trust_row_prefix_bounds(
    vic: Seq<String>,
    records: Seq<TxRecord>,
    excl: Option<Seq<char>>,
    i: int,
    j: int,
)
    requires
        0 <= i < vic.len(),
        0 <= j <= vic.len(),
        base_row_sum(vic, records, excl, i) != 0,
    ensures
        trust_row_prefix(vic, records, excl, i, j) <= base_prefix(vic, records, excl, i, j)
            * SCALE / base_row_sum(vic, records, excl, i),
        trust_row_prefix(vic, records, excl, i, j) >= base_prefix(vic, records, excl, i, j)
            * SCALE / base_row_sum(vic, records, excl, i) - (if j <= i {
            j
        } else {
            j - 1
        }),
    decreases j,
{
    let r = base_row_sum(vic, records, excl, i);
    lemma_base_prefix_mono(vic, records, excl, i, 0, vic.len() as int);
    if j > 0 {
        lemma_trust_row_prefix_bounds(vic, records, excl, i, j - 1);
        let bp = base_prefix(vic, records, excl, i, j - 1);
        let bw = base_weight(vic, records, excl, i, j - 1);
        lemma_base_weight_nonneg(vic, records, excl, i, j - 1);
        lemma_base_prefix_mono(vic, records, excl, i, 0, j - 1);
        assert((bp + bw) * SCALE == bp * SCALE + bw * SCALE) by (nonlinear_arith);
        assert(bp * SCALE >= 0) by (nonlinear_arith)
            requires
                bp >= 0,
        ;
        assert(bw * SCALE >= 0) by (nonlinear_arith)
            requires
                bw >= 0,
        ;
        lemma_div_superadd(bp * SCALE, bw * SCALE, r);
        lemma_div_subadd(bp * SCALE, bw * SCALE, r);
        if j - 1 == i {
            assert(bw == 0);
            assert(trust_cell(vic, records, excl, i, j - 1) == 0) by {
                assert(0int * SCALE / r == 0) by (nonlinear_arith)
                    requires
                        r > 0,
                ;
            }
        }
    }
}

/// Sum of the values of all records from `from` to `to`, by one pass over
/// the records.
pub fn weight_between(records: &Vec<TxRecord>, from: &String, to: &String) -> (r: u64)
    requires
        records@.len() < 0x1_0000_0000,
    ensures
        r == weight_of(records@, from@, to@),
{
    let n = records.len();
    let mut acc: u64 = 0;
    let mut k: usize = 0;
    proof {
        assert(records@.take(0) =~= Seq::<TxRecord>::empty());
    }
    while k < n
        invariant
            k <= n,
            n == records@.len(),
            n < 0x1_0000_0000,
            acc == weight_of(records@.take(k as int), from@, to@),
            acc <= (k as int) * 0xFFFF_FFFF,
        decreases n - k,
    {
        proof {
            assert(records@.take(k as int + 1).drop_last() =~= records@.take(k as int));
            assert(records@.take(k as int + 1).last() == records@[k as int]);
        }
        if records[k].from == *from && records[k].to == *to {
            acc = acc + records[k].value as u64;
        }
        k = k + 1;
    }
    proof {
        assert(records@.take(n as int) =~= records@);
    }
    acc
}

/// Builder of the local trust matrix.
pub struct TrustMatrixBuilder {}

impl TrustMatrixBuilder {
    /// Builds the local trust matrix of the vicinity from the transaction
    /// records.
    ///
    /// Cell `(i, j)` of the result is exactly `trust_cell(i, j)`: raw
    /// weights aggregated per edge, the dangling fallback, the cleared
    /// diagonal, and row normalization in fixed point. With
    /// `exclude_target` set to `None` — the pipeline's own call — every
    /// aggregated edge is kept and only the diagonal is cleared. A
    /// `Some` address zeroes that address's whole column before the
    /// dangling test: no row then carries any trust toward it, which is
    /// stronger than suppressing self-loops alone, and a row whose only
    /// weight pointed there falls back to the uniform distribution. Each
    /// row sums to at most `SCALE` (one), and — unless the row was left
    /// all zero — to at least `SCALE` less one rounding unit per
    /// off-diagonal cell; the diagonal is always zero.
    pub fn build(
        vicinity: &Vec<String>,
        records: &Vec<TxRecord>,
        exclude_target: Option<&String>,
    ) -> (r: Matrix)
        requires
            vicinity@.len() > 0,
            records@.len() < 0x1_0000_0000,
        ensures
            r@.len() == vicinity@.len(),
            is_rectangular(r@),
            cols_of(r@) == vicinity@.len(),
            forall|i: int, j: int|
                0 <= i < vicinity@.len() && 0 <= j < vicinity@.len() ==> #[trigger] r@[i][j]
                    == trust_cell(vicinity@, records@, excl_of(exclude_target), i, j),
            entries_le_scale(r@),
            forall|i: int| 0 <= i < vicinity@.len() ==> #[trigger] r@[i][i] == 0,
            forall|i: int| 0 <= i < vicinity@.len() ==> sum(#[trigger] r@[i]) <= SCALE,
            forall|i: int|
                0 <= i < vicinity@.len() && base_row_sum(
                    vicinity@,
                    records@,
                    excl_of(exclude_target),
                    i,
                ) != 0 ==> sum(#[trigger] r@[i]) >= SCALE - (vicinity@.len() - 1),
    {
        let n = vicinity.len();
        let ghost vic = vicinity@;
        let ghost recs = records@;
        let ghost excl = excl_of(exclude_target);

        let mut base_rows: Vec<Vec<u64>> = Vec::new();
        let mut i: usize = 0;
        while i < n
            invariant
                i <= n,
                n == vic.len(),
                vic == vicinity@,
                recs == records@,
                excl == excl_of(exclude_target),
                recs.len() < 0x1_0000_0000,
                base_rows@.len() == i,
                forall|k: int| 0 <= k < i ==> #[trigger] base_rows@[k]@.len() == n,
                forall|k: int, j: int|
                    0 <= k < i && 0 <= j < n ==> #[trigger] base_rows@[k]@[j] == base_weight(
                        vic,
                        recs,
                        excl,
                        k,
                        j,
                    ),
            decreases n - i,
        {
            let mut raw: Vec<u64> = Vec::new();
            let mut fsum: u128 = 0;
            let mut j: usize = 0;
            while j < n
                invariant
                    j <= n,
                    i < n,
                    n == vic.len(),
                    vic == vicinity@,
                    recs == records@,
                    excl == excl_of(exclude_target),
                    recs.len() < 0x1_0000_0000,
                    raw@.len() == j,
                    forall|l: int|
                        0 <= l < j ==> #[trigger] raw@[l] == fill_weight(vic, recs, excl, i as int, l),
                    fsum == fill_prefix(vic, recs, excl, i as int, j as int),
                    fsum <= (j as int) * (u64::MAX as int),
                decreases n - j,
            {
                let excluded = match exclude_target {
                    Option::Some(a) => vicinity[j] == *a,
                    Option::None => false,
                };
                let w: u64 = if excluded {
                    0
                } else {
                    weight_between(records, &vicinity[i], &vicinity[j])
                };
                proof {
                    assert(w == fill_weight(vic, recs, excl, i as int, j as int));
                    assert((j as int + 1) * (u64::MAX as int) == (j as int) * (u64::MAX as int)
                        + (u64::MAX as int)) by (nonlinear_arith);
                }
                raw.push(w);
                fsum = fsum + (w as u128);
                j = j + 1;
            }
            let dangling = fsum == 0;
            let mut base: Vec<u64> = Vec::new();
            let mut j: usize = 0;
            while j < n
                invariant
                    j <= n,
                    i < n,
                    n == vic.len(),
                    vic == vicinity@,
                    recs == records@,
                    excl == excl_of(exclude_target),
                    raw@.len() == n,
                    forall|l: int|
                        0 <= l < n ==> #[trigger] raw@[l] == fill_weight(vic, recs, excl, i as int, l),
                    dangling == row_dangling(vic, recs, excl, i as int),
                    base@.len() == j,
                    forall|l: int|
                        0 <= l < j ==> #[trigger] base@[l] == base_weight(
                            vic,
                            recs,
                            excl,
                            i as int,
                            l,
                        ),
                decreases n - j,
            {
                let b: u64 = if j == i {
                    0
                } else if dangling {
                    1
                } else {
                    raw[j]
                };
                base.push(b);
                j = j + 1;
            }
            base_rows.push(base);
            i = i + 1;
        }

        let mut dat: Vec<Vec<u64>> = Vec::new();
        let mut i: usize = 0;
        while i < n
            invariant
                i <= n,
                n == vic.len(),
                vic == vicinity@,
                recs == records@,
                excl == excl_of(exclude_target),
                base_rows@.len() == n,
                forall|k: int| 0 <= k < n ==> #[trigger] base_rows@[k]@.len() == n,
                forall|k: int, j: int|
                    0 <= k < n && 0 <= j < n ==> #[trigger] base_rows@[k]@[j] == base_weight(
                        vic,
                        recs,
                        excl,
                        k,
                        j,
                    ),
                dat@.len() == i,
                forall|k: int| 0 <= k < i ==> #[trigger] dat@[k]@.len() == n,
                forall|k: int, j: int|
                    0 <= k < i && 0 <= j < n ==> #[trigger] dat@[k]@[j] == trust_cell(
                        vic,
                        recs,
                        excl,
                        k,
                        j,
                    ),
                forall|k: int, j: int|
                    0 <= k < i && 0 <= j < n ==> #[trigger] dat@[k]@[j] <= SCALE,
                forall|k: int| 0 <= k < i ==> sum(#[trigger] dat@[k]@) <= SCALE,
                forall|k: int|
                    0 <= k < i && base_row_sum(vic, recs, excl, k) != 0 ==> sum(
                        #[trigger] dat@[k]@,
                    ) >= SCALE - (n - 1),
            decreases n - i,
        {
            let mut rsum: u128 = 0;
            let mut j: usize = 0;
            while j < n
                invariant
                    j <= n,
                    i < n,
                    n == vic.len(),
                    vic == vicinity@,
                    recs == records@,
                    excl == excl_of(exclude_target),
                    base_rows@.len() == n,
                    forall|k: int| 0 <= k < n ==> #[trigger] base_rows@[k]@.len() == n,
                    forall|k: int, l: int|
                        0 <= k < n && 0 <= l < n ==> #[trigger] base_rows@[k]@[l] == base_weight(
                            vic,
                            recs,
                            excl,
                            k,
                            l,
                        ),
                    rsum == base_prefix(vic, recs, excl, i as int, j as int),
                    rsum <= (j as int) * (u64::MAX as int),
                decreases n - j,
            {
                proof {
                    assert((j as int + 1) * (u64::MAX as int) == (j as int) * (u64::MAX as int)
                        + (u64::MAX as int)) by (nonlinear_arith);
                }
                rsum = rsum + (base_rows[i][j] as u128);
                j = j + 1;
            }
            let ghost rr = base_row_sum(vic, recs, excl, i as int);
            proof {
                assert(rsum == rr);
            }
            let mut row: Vec<u64> = Vec::new();
            let mut j: usize = 0;
            while j < n
                invariant
                    j <= n,
                    i < n,
                    n == vic.len(),
                    vic == vicinity@,
                    recs == records@,
                    excl == excl_of(exclude_target),
                    base_rows@.len() == n,
                    forall|k: int| 0 <= k < n ==> #[trigger] base_rows@[k]@.len() == n,
                    forall|k: int, l: int|
                        0 <= k < n && 0 <= l < n ==> #[trigger] base_rows@[k]@[l] == base_weight(
                            vic,
                            recs,
                            excl,
                            k,
                            l,
                        ),
                    rr == base_row_sum(vic, recs, excl, i as int),
                    rsum == rr,
                    row@.len() == j,
                    forall|l: int|
                        0 <= l < j ==> #[trigger] row@[l] == trust_cell(vic, recs, excl, i as int, l),
                    forall|l: int| 0 <= l < j ==> #[trigger] row@[l] <= SCALE,
                    rr == 0 ==> sum(row@) == 0,
                    rr != 0 ==> sum(row@) <= base_prefix(vic, recs, excl, i as int, j as int)
                        * SCALE / rr,
                    rr != 0 ==> sum(row@) >= base_prefix(vic, recs, excl, i as int, j as int)
                        * SCALE / rr - (if j <= i {
                        j as int
                    } else {
                        j as int - 1
                    }),
                decreases n - j,
            {
                let ghost row_before = row@;
                let ghost bp = base_prefix(vic, recs, excl, i as int, j as int);
                let ghost bw = base_weight(vic, recs, excl, i as int, j as int);
                let c: u64;
                if rsum == 0 {
                    c = 0;
                } else if j == i {
                    c = 0;
                } else {
                    proof {
                        lemma_base_weight_le_sum(vic, recs, excl, i as int, j as int);
                        lemma_base_weight_nonneg(vic, recs, excl, i as int, j as int);
                        assert(bw * SCALE <= rr * SCALE) by (nonlinear_arith)
                            requires
                                0 <= bw <= rr,
                        ;
                        vstd::arithmetic::div_mod::lemma_div_is_ordered(
                            bw * SCALE,
                            rr * SCALE,
                            rr,
                        );
                        assert(rr * SCALE / rr == SCALE) by (nonlinear_arith)
                            requires
                                rr > 0,
                        ;
                        assert(bw * SCALE >= 0) by (nonlinear_arith)
                            requires
                                0 <= bw,
                        ;
                    }
                    c = ((base_rows[i][j] as u128) * (SCALE as u128) / rsum) as u64;
                }
                row.push(c);
                proof {
                    assert(row@.drop_last() =~= row_before);
                    assert(sum(row@) == sum(row_before) + c);
                    lemma_base_weight_nonneg(vic, recs, excl, i as int, j as int);
                    if rr != 0 {
                        assert((bp + bw) * SCALE == bp * SCALE + bw * SCALE) by (nonlinear_arith);
                        assert(bp >= 0) by {
                            lemma_base_prefix_mono(vic, recs, excl, i as int, 0, j as int);
                        }
                        assert(bp * SCALE >= 0) by (nonlinear_arith)
                            requires
                                bp >= 0,
                        ;
                        assert(bw * SCALE >= 0) by (nonlinear_arith)
                            requires
                                bw >= 0,
                        ;
                        lemma_div_superadd(bp * SCALE, bw * SCALE, rr);
                        lemma_div_subadd(bp * SCALE, bw * SCALE, rr);
                        if j == i {
                            assert(bw == 0);
                            assert(c == 0);
                        }
                    }
                }
                j = j + 1;
            }
            proof {
                if rr != 0 {
                    assert(base_prefix(vic, recs, excl, i as int, n as int) == rr);
                    assert(rr * SCALE / rr == SCALE) by (nonlinear_arith)
                        requires
                            rr > 0,
                    ;
                }
            }
            dat.push(row);
            i = i + 1;
        }
        let m = Matrix::new(dat);
        proof {
            assert forall|k: int| 0 <= k < vic.len() implies #[trigger] m@[k][k] == 0 by {
                let rk = base_row_sum(vic, recs, excl, k);
                assert(base_weight(vic, recs, excl, k, k) == 0);
                if rk != 0 {
                    lemma_base_prefix_mono(vic, recs, excl, k, 0, vic.len() as int);
                    assert(0int * SCALE / rk == 0) by (nonlinear_arith)
                        requires
                            rk > 0,
                    ;
                }
            }
        }
        m
    }
}

} // verus!
