//! Power-iteration propagation of trust scores.
//!
//! Each round applies the transposed trust matrix to the current score
//! vector — trust flows along incoming edges — and then blends the result
//! with the pre-trust vector: `score = propagated * (1 - w) + pre_trust * w`
//! in fixed point. The rounds run a fixed number of times with no
//! convergence check.
use vstd::arithmetic::div_mod::lemma_div_is_ordered;
use vstd::arithmetic::div_mod::lemma_div_multiples_vanish;
use vstd::arithmetic::div_mod::lemma_div_pos_is_pos;
use vstd::prelude::*;

use crate::fixed::fp_mul;
use crate::fixed::lemma_div_superadd;
use crate::fixed::lemma_sum_entry_le;
use crate::fixed::lemma_sum_nonneg;
use crate::fixed::lemma_sum_take_le;
use crate::fixed::lemma_sum_take_step;
use crate::fixed::lemma_sum_update;
use crate::fixed::mul_fp;
use crate::fixed::sum;
use crate::matrix::cols_of;
use crate::matrix::entries_le_scale;
use crate::matrix::is_rectangular;
use crate::matrix::Matrix;
use crate::SCALE;

verus! {

/// A sequence of machine words as unbounded integers.
pub open spec fn int_seq(s: Seq<u64>) -> Seq<int> {
    s.map_values(|x: u64| x as int)
}

/// Every row of the matrix sums to at most one, so the matrix passes on no
/// more trust than it receives.
pub open spec fn rows_substochastic(m: Seq<Seq<u64>>) -> bool {
    forall|i: int| 0 <= i < m.len() ==> sum(#[trigger] m[i]) <= SCALE
}

/// First `j` summands of entry `i` of the product of the transposed matrix
/// with `s`: the trust flowing into `i` from the first `j` rows.
pub open spec fn tmatvec_prefix(m: Seq<Seq<u64>>, s: Seq<int>, i: int, j: int) -> int
    decreases j,
{
    if j <= 0 {
        0
    } else {
        tmatvec_prefix(m, s, i, j - 1) + mul_fp(m[j - 1][i] as int, s[j - 1])
    }
}

/// Entry `i` of the product of the transposed matrix with `s`.
pub open spec fn tmatvec_entry(m: Seq<Seq<u64>>, s: Seq<int>, i: int) -> int {
    tmatvec_prefix(m, s, i, s.len() as int)
}

/// Entry `i` after one propagation round: the propagated entry weighted by
/// `1 - w` plus the pre-trust entry weighted by `w`, in fixed point.
pub open spec fn round_entry(
    m: Seq<Seq<u64>>,
    s: Seq<int>,
    pre: Seq<u64>,
    w: int,
    i: int,
) -> int {
    mul_fp(SCALE - w, tmatvec_entry(m, s, i)) + mul_fp(w, pre[i] as int)
}

/// Scores after `iters` propagation rounds, starting from the pre-trust
/// vector itself.
pub open spec fn propagate_seq(m: Seq<Seq<u64>>, pre: Seq<u64>, w: int, iters: nat) -> Seq<int>
    decreases iters,
{
    if iters == 0 {
        int_seq(pre)
    } else {
        let prev = propagate_seq(m, pre, w, (iters - 1) as nat);
        Seq::new(pre.len(), |i: int| round_entry(m, prev, pre, w, i))
    }
}

/// First `i` summands of row `row`'s contribution to the scattered product:
/// the fixed-point products of the row's first `i` entries with `sv`.
pub open spec fn contrib_prefix(row: Seq<u64>, sv: int, i: int) -> int
    decreases i,
{
    if i <= 0 {
        0
    } else {
        contrib_prefix(row, sv, i - 1) + mul_fp(row[i - 1] as int, sv)
    }
}

/// The propagation is a mathematical function of its inputs: equal
/// matrices, pre-trust vectors, weights and round counts give equal — bit
/// for bit — score sequences.
pub proof fn lemma_propagate_deterministic(
    m1: Seq<Seq<u64>>,
    pre1: Seq<u64>,
    w1: int,
    iters1: nat,
    m2: Seq<Seq<u64>>,
    pre2: Seq<u64>,
    w2: int,
    iters2: nat,
)
    requires
        m1 == m2,
        pre1 == pre2,
        w1 == w2,
        iters1 == iters2,
    ensures
        propagate_seq(m1, pre1, w1, iters1) == propagate_seq(m2, pre2, w2, iters2),
{
}

/// With full pre-trust weight the scores never move: after any number of
/// rounds they are the pre-trust vector itself.
pub proof fn lemma_full_pre_trust_weight(m: Seq<Seq<u64>>, pre: Seq<u64>, iters: nat)
    ensures
        propagate_seq(m, pre, SCALE as int, iters) == int_seq(pre),
    decreases iters,
{
    if iters > 0 {
        lemma_full_pre_trust_weight(m, pre, (iters - 1) as nat);
        let prev = propagate_seq(m, pre, SCALE as int, (iters - 1) as nat);
        assert forall|i: int| 0 <= i < pre.len() implies round_entry(
            m,
            prev,
            pre,
            SCALE as int,
            i,
        ) == pre[i] as int by {
            let t = tmatvec_entry(m, prev, i);
            assert(0 * t == 0) by (nonlinear_arith);
            vstd::arithmetic::div_mod::lemma_div_of0(SCALE as int);
            lemma_div_multiples_vanish(pre[i] as int, SCALE as int);
        }
        assert(propagate_seq(m, pre, SCALE as int, iters) =~= int_seq(pre));
    }
}

/// Prefixes of the transposed product are never negative when the score
/// vector is not.
pub proof fn lemma_tmatvec_prefix_nonneg(m: Seq<Seq<u64>>, s: Seq<int>, i: int, j: int)
    requires
        forall|k: int| 0 <= k < s.len() ==> s[k] >= 0,
        j <= s.len(),
    ensures
        tmatvec_prefix(m, s, i, j) >= 0,
    decreases j,
{
    if j > 0 {
        lemma_tmatvec_prefix_nonneg(m, s, i, j - 1);
        assert(m[j - 1][i] as int * s[j - 1] >= 0) by (nonlinear_arith)
            requires
                m[j - 1][i] as int >= 0,
                s[j - 1] >= 0,
        ;
        lemma_div_pos_is_pos(m[j - 1][i] as int * s[j - 1], SCALE as int);
    }
}

/// Propagated scores are never negative: whatever the matrix holds, every
/// entry of every round is at least zero.
pub proof fn lemma_propagate_nonneg(m: Seq<Seq<u64>>, pre: Seq<u64>, w: int, iters: nat)
    requires
        0 <= w <= SCALE,
    ensures
        propagate_seq(m, pre, w, iters).len() == pre.len(),
        forall|i: int|
            0 <= i < pre.len() ==> #[trigger] propagate_seq(m, pre, w, iters)[i] >= 0,
    decreases iters,
{
    if iters > 0 {
        lemma_propagate_nonneg(m, pre, w, (iters - 1) as nat);
        let prev = propagate_seq(m, pre, w, (iters - 1) as nat);
        assert forall|i: int| 0 <= i < pre.len() implies #[trigger] propagate_seq(
            m,
            pre,
            w,
            iters,
        )[i] >= 0 by {
            lemma_tmatvec_prefix_nonneg(m, prev, i, prev.len() as int);
            let t = tmatvec_entry(m, prev, i);
            assert((SCALE - w) * t >= 0) by (nonlinear_arith)
                requires
                    SCALE - w >= 0,
                    t >= 0,
            ;
            assert(w * (pre[i] as int) >= 0) by (nonlinear_arith)
                requires
                    w >= 0,
                    pre[i] as int >= 0,
            ;
            lemma_div_pos_is_pos((SCALE - w) * t, SCALE as int);
            lemma_div_pos_is_pos(w * (pre[i] as int), SCALE as int);
        }
    }
}

/// Prefixes of the transposed product agree with the fixed-point dot
/// product of a row that mirrors the matrix's column `i`.
proof fn lemma_dot_tmatvec_prefix(
    m: Seq<Seq<u64>>,
    row: Seq<u64>,
    s: Seq<u64>,
    i: int,
    j: int,
)
    requires
        0 <= j <= s.len(),
        row.len() == s.len(),
        forall|k: int| 0 <= k < s.len() ==> #[trigger] row[k] == m[k][i],
    ensures
        crate::matrix::dot_fp(row.take(j), s.take(j)) == tmatvec_prefix(m, int_seq(s), i, j),
    decreases j,
{
    if j > 0 {
        lemma_dot_tmatvec_prefix(m, row, s, i, j - 1);
        assert(row.take(j).drop_last() =~= row.take(j - 1));
        assert(s.take(j).drop_last() =~= s.take(j - 1));
        assert(row.take(j).last() == row[j - 1]);
        assert(s.take(j).last() == s[j - 1]);
    } else {
        assert(row.take(0) =~= Seq::<u64>::empty());
        assert(s.take(0) =~= Seq::<u64>::empty());
    }
}

/// A propagation round really applies the transposed matrix: entry `i` of
/// the scattered product equals the fixed-point dot product of row `i` of
/// the transpose with the score vector — what [`Matrix::transpose`]
/// followed by [`Matrix::mul_add`] computes.
pub proof fn lemma_tmatvec_is_transposed_product(
    m: Seq<Seq<u64>>,
    t: Seq<Seq<u64>>,
    s: Seq<u64>,
    i: int,
)
    requires
        m.len() == s.len(),
        t[i].len() == s.len(),
        forall|k: int| 0 <= k < s.len() ==> #[trigger] t[i][k] == m[k][i],
    ensures
        crate::matrix::dot_fp(t[i], s) == tmatvec_entry(m, int_seq(s), i),
{
    lemma_dot_tmatvec_prefix(m, t[i], s, i, s.len() as int);
    assert(t[i].take(s.len() as int) =~= t[i]);
    assert(s.take(s.len() as int) =~= s);
}

/// One propagation round over machine words: scatter each score along its
/// row of the matrix — which computes the transposed product — then blend
/// with the pre-trust vector.
fn propagate_round(m: &Matrix, s: &Vec<u64>, pre: &Vec<u64>, w: u64) -> (r: Vec<u64>)
    requires
        is_rectangular(m@),
        m@.len() == s@.len(),
        cols_of(m@) == s@.len(),
        pre@.len() == s@.len(),
        entries_le_scale(m@),
        rows_substochastic(m@),
        sum(s@) <= SCALE,
        sum(pre@) <= SCALE,
        w <= SCALE,
    ensures
        r@.len() == s@.len(),
        forall|i: int|
            0 <= i < s@.len() ==> #[trigger] r@[i] == round_entry(
                m@,
                int_seq(s@),
                pre@,
                w as int,
                i,
            ),
        sum(r@) <= SCALE,
{
    let n = s.len();
    let ghost ints = int_seq(s@);
    let mut prop: Vec<u64> = Vec::new();
    let mut i: usize = 0;
    while i < n
        invariant
            i <= n,
            prop@.len() == i,
            forall|l: int| 0 <= l < i ==> #[trigger] prop@[l] == 0,
            sum(prop@) == 0,
        decreases n - i,
    {
        let ghost before = prop@;
        prop.push(0);
        proof {
            assert(prop@.drop_last() =~= before);
        }
        i = i + 1;
    }
    proof {
        assert(s@.take(0) =~= Seq::<u64>::empty());
    }
    let mut j: usize = 0;
    while j < n
        invariant
            j <= n,
            n == s@.len(),
            ints == int_seq(s@),
            is_rectangular(m@),
            m@.len() == n,
            cols_of(m@) == n,
            entries_le_scale(m@),
            rows_substochastic(m@),
            sum(s@) <= SCALE,
            prop@.len() == n,
            forall|l: int|
                0 <= l < n ==> #[trigger] prop@[l] == tmatvec_prefix(m@, ints, l, j as int),
            sum(prop@) <= sum(s@.take(j as int)),
        decreases n - j,
    {
        let sj = s[j];
        let ghost sv = s@[j as int] as int;
        proof {
            assert(m@[j as int].take(0) =~= Seq::<u64>::empty());
        }
        let mut i: usize = 0;
        while i < n
            invariant
                i <= n,
                j < n,
                n == s@.len(),
                ints == int_seq(s@),
                sv == s@[j as int] as int,
                sj == s@[j as int],
                is_rectangular(m@),
                m@.len() == n,
                cols_of(m@) == n,
                entries_le_scale(m@),
                rows_substochastic(m@),
                sum(s@) <= SCALE,
                prop@.len() == n,
                forall|l: int|
                    0 <= l < i ==> #[trigger] prop@[l] == tmatvec_prefix(m@, ints, l, j as int + 1),
                forall|l: int|
                    i <= l < n ==> #[trigger] prop@[l] == tmatvec_prefix(m@, ints, l, j as int),
                sum(prop@) <= sum(s@.take(j as int)) + contrib_prefix(m@[j as int], sv, i as int),
                contrib_prefix(m@[j as int], sv, i as int) <= sum(m@[j as int].take(i as int)) * sv
                    / (SCALE as int),
                contrib_prefix(m@[j as int], sv, i as int) >= 0,
            decreases n - i,
        {
            let ghost prop_before = prop@;
            let ghost mji = m@[j as int][i as int] as int;
            proof {
                lemma_sum_entry_le(prop@, i as int);
                lemma_sum_take_le(s@, j as int);
                lemma_sum_nonneg(s@.take(j as int));
                assert(sv <= sum(s@)) by {
                    lemma_sum_entry_le(s@, j as int);
                }
                let row = m@[j as int];
                lemma_sum_nonneg(row.take(i as int));
                lemma_sum_take_le(row, i as int);
                lemma_sum_nonneg(row);
                assert(sum(row.take(i as int)) * sv <= SCALE * sv) by (nonlinear_arith)
                    requires
                        0 <= sum(row.take(i as int)) <= SCALE,
                        sv >= 0,
                ;
                assert(sum(row.take(i as int)) * sv >= 0) by (nonlinear_arith)
                    requires
                        sum(row.take(i as int)) >= 0,
                        sv >= 0,
                ;
                lemma_div_is_ordered(sum(row.take(i as int)) * sv, SCALE * sv, SCALE as int);
                lemma_div_multiples_vanish(sv, SCALE as int);
            }
            let term = fp_mul(m.entry(j, i), sj);
            let cur = prop[i];
            prop.set(i, cur + term);
            proof {
                lemma_sum_update(prop_before, i as int, (cur + term) as u64);
                // the updated entry finishes one more summand of its prefix
                assert(prop@[i as int] == tmatvec_prefix(m@, ints, i as int, j as int + 1));
                // one more summand of row j's contribution, and its bound
                let row = m@[j as int];
                lemma_sum_take_step(row, i as int);
                lemma_sum_nonneg(row.take(i as int));
                assert((sum(row.take(i as int)) + mji) * sv == sum(row.take(i as int)) * sv + mji
                    * sv) by (nonlinear_arith);
                assert(sum(row.take(i as int)) * sv >= 0) by (nonlinear_arith)
                    requires
                        sum(row.take(i as int)) >= 0,
                        sv >= 0,
                ;
                assert(mji * sv >= 0) by (nonlinear_arith)
                    requires
                        mji >= 0,
                        sv >= 0,
                ;
                lemma_div_superadd(sum(row.take(i as int)) * sv, mji * sv, SCALE as int);
                lemma_div_pos_is_pos(mji * sv, SCALE as int);
            }
            i = i + 1;
        }
        proof {
            let row = m@[j as int];
            assert(row.take(n as int) =~= row);
            lemma_sum_nonneg(row);
            assert(sum(row) * sv <= SCALE * sv) by (nonlinear_arith)
                requires
                    sum(row) <= SCALE,
                    sv >= 0,
            ;
            assert(sum(row) * sv >= 0) by (nonlinear_arith)
                requires
                    sum(row) >= 0,
                    sv >= 0,
            ;
            lemma_div_is_ordered(sum(row) * sv, SCALE * sv, SCALE as int);
            lemma_div_multiples_vanish(sv, SCALE as int);
            lemma_sum_take_step(s@, j as int);
        }
        j = j + 1;
    }
    proof {
        assert(s@.take(n as int) =~= s@);
    }
    let ghost propv = prop@;
    let mut res: Vec<u64> = Vec::new();
    proof {
        assert(propv.take(0) =~= Seq::<u64>::empty());
        assert(pre@.take(0) =~= Seq::<u64>::empty());
        lemma_sum_nonneg(res@);
    }
    let mut i: usize = 0;
    while i < n
        invariant
            i <= n,
            n == s@.len(),
            ints == int_seq(s@),
            pre@.len() == n,
            w <= SCALE,
            prop@ == propv,
            prop@.len() == n,
            forall|l: int|
                0 <= l < n ==> #[trigger] prop@[l] == tmatvec_prefix(m@, ints, l, n as int),
            sum(prop@) <= SCALE,
            sum(pre@) <= SCALE,
            res@.len() == i,
            forall|l: int|
                0 <= l < i ==> #[trigger] res@[l] == round_entry(m@, ints, pre@, w as int, l),
            sum(res@) <= ((SCALE - w) * sum(propv.take(i as int)) + w * sum(pre@.take(i as int)))
                / (SCALE as int),
        decreases n - i,
    {
        proof {
            lemma_sum_entry_le(prop@, i as int);
            lemma_sum_entry_le(pre@, i as int);
        }
        let a = fp_mul(SCALE - w, prop[i]);
        let b = fp_mul(w, pre[i]);
        let ghost res_before = res@;
        res.push(a + b);
        proof {
            assert(res@.drop_last() =~= res_before);
            assert(res@[i as int] == round_entry(m@, ints, pre@, w as int, i as int));
            let p = propv[i as int] as int;
            let q = pre@[i as int] as int;
            let cp = sum(propv.take(i as int));
            let cq = sum(pre@.take(i as int));
            lemma_sum_take_step(propv, i as int);
            lemma_sum_take_step(pre@, i as int);
            lemma_sum_nonneg(propv.take(i as int));
            lemma_sum_nonneg(pre@.take(i as int));
            assert((SCALE - w) * p >= 0 && w * q >= 0 && (SCALE - w) * cp >= 0 && w * cq
                >= 0) by (nonlinear_arith)
                requires
                    p >= 0,
                    q >= 0,
                    cp >= 0,
                    cq >= 0,
                    0 <= w <= SCALE,
            ;
            lemma_div_superadd((SCALE - w) * p, w * q, SCALE as int);
            lemma_div_superadd((SCALE - w) * cp + w * cq, (SCALE - w) * p + w * q, SCALE as int);
            assert((SCALE - w) * (cp + p) == (SCALE - w) * cp + (SCALE - w) * p) by (nonlinear_arith);
            assert(w * (cq + q) == w * cq + w * q) by (nonlinear_arith);
        }
        i = i + 1;
    }
    proof {
        assert(propv.take(n as int) =~= propv);
        assert(pre@.take(n as int) =~= pre@);
        let cp = sum(propv);
        let cq = sum(pre@);
        lemma_sum_nonneg(propv);
        lemma_sum_nonneg(pre@);
        assert((SCALE - w) * cp <= (SCALE - w) * SCALE && w * cq <= w * SCALE) by (nonlinear_arith)
            requires
                0 <= cp <= SCALE,
                0 <= cq <= SCALE,
                0 <= w <= SCALE,
        ;
        assert((SCALE - w) * SCALE + w * SCALE == SCALE * SCALE) by (nonlinear_arith);
        assert((SCALE - w) * cp + w * cq >= 0) by (nonlinear_arith)
            requires
                0 <= cp,
                0 <= cq,
                0 <= w <= SCALE,
        ;
        lemma_div_is_ordered((SCALE - w) * cp + w * cq, SCALE * SCALE, SCALE as int);
        lemma_div_multiples_vanish(SCALE as int, SCALE as int);
    }
    res
}

/// Runner of the power iteration.
pub struct TrustPropagator {}

impl TrustPropagator {
    /// Runs `iterations` propagation rounds from the pre-trust vector and
    /// returns the final score vector.
    ///
    /// The result is exactly `propagate_seq`: round upon round of the
    /// transposed-matrix product blended with the pre-trust vector. Its
    /// entries are non-negative machine words whose total never exceeds
    /// `SCALE`, so every score stays bounded however many rounds run.
    pub fn propagate(
        matrix: &Matrix,
        pre_trust: &Vec<u64>,
        pre_trust_weight: u64,
        iterations: usize,
    ) -> (r: Vec<u64>)
        requires
            is_rectangular(matrix@),
            matrix@.len() == pre_trust@.len(),
            cols_of(matrix@) == pre_trust@.len(),
            entries_le_scale(matrix@),
            rows_substochastic(matrix@),
            sum(pre_trust@) <= SCALE,
            pre_trust_weight <= SCALE,
        ensures
            r@.len() == pre_trust@.len(),
            int_seq(r@) == propagate_seq(
                matrix@,
                pre_trust@,
                pre_trust_weight as int,
                iterations as nat,
            ),
            sum(r@) <= SCALE,
    {
        let n = pre_trust.len();
        let mut scores: Vec<u64> = Vec::new();
        let mut i: usize = 0;
        while i < n
            invariant
                i <= n,
                n == pre_trust@.len(),
                scores@ == pre_trust@.take(i as int),
            decreases n - i,
        {
            scores.push(pre_trust[i]);
            proof {
                assert(scores@ =~= pre_trust@.take(i as int + 1));
            }
            i = i + 1;
        }
        proof {
            assert(pre_trust@.take(n as int) =~= pre_trust@);
        }
        let mut it: usize = 0;
        while it < iterations
            invariant
                it <= iterations,
                n == pre_trust@.len(),
                is_rectangular(matrix@),
                matrix@.len() == n,
                cols_of(matrix@) == n,
                entries_le_scale(matrix@),
                rows_substochastic(matrix@),
                sum(pre_trust@) <= SCALE,
                pre_trust_weight <= SCALE,
                scores@.len() == n,
                sum(scores@) <= SCALE,
                int_seq(scores@) == propagate_seq(
                    matrix@,
                    pre_trust@,
                    pre_trust_weight as int,
                    it as nat,
                ),
            decreases iterations - it,
        {
            let next = propagate_round(matrix, &scores, pre_trust, pre_trust_weight);
            proof {
                assert(int_seq(next@) =~= propagate_seq(
                    matrix@,
                    pre_trust@,
                    pre_trust_weight as int,
                    (it + 1) as nat,
                ));
            }
            scores = next;
            it = it + 1;
        }
        scores
    }

    /// Checked entry to the power iteration: validates the shape and the
    /// fixed-point bounds at run time and refuses — `None` — exactly the
    /// inputs that [`Self::propagate`] leaves out.
    pub fn propagate_checked(
        matrix: &Matrix,
        pre_trust: &Vec<u64>,
        pre_trust_weight: u64,
        iterations: usize,
    ) -> (r: Option<Vec<u64>>)
        ensures
            r is Some <==> (is_rectangular(matrix@) && matrix@.len() == pre_trust@.len()
                && cols_of(matrix@) == pre_trust@.len() && entries_le_scale(matrix@)
                && rows_substochastic(matrix@) && sum(pre_trust@) <= SCALE && pre_trust_weight
                <= SCALE),
            r matches Some(v) ==> int_seq(v@) == propagate_seq(
                matrix@,
                pre_trust@,
                pre_trust_weight as int,
                iterations as nat,
            ) && v@.len() == pre_trust@.len() && sum(v@) <= SCALE,
    {
        if pre_trust_weight > SCALE {
            return Option::None;
        }
        let n = pre_trust.len();
        if matrix.num_rows() != n {
            return Option::None;
        }
        let mut i: usize = 0;
        while i < n
            invariant
                i <= n,
                n == pre_trust@.len(),
                matrix@.len() == n,
                forall|k: int| 0 <= k < i ==> (#[trigger] matrix@[k]).len() == n,
                forall|k: int, l: int|
                    0 <= k < i && 0 <= l < n ==> #[trigger] matrix@[k][l] <= SCALE,
                forall|k: int| 0 <= k < i ==> sum(#[trigger] matrix@[k]) <= SCALE,
            decreases n - i,
        {
            if matrix.row_len(i) != n {
                return Option::None;
            }
            let mut rsum: u128 = 0;
            let mut j: usize = 0;
            proof {
                assert(matrix@[i as int].take(0) =~= Seq::<u64>::empty());
            }
            while j < n
                invariant
                    j <= n,
                    i < n,
                    n == pre_trust@.len(),
                    matrix@.len() == n,
                    matrix@[i as int].len() == n,
                    forall|l: int| 0 <= l < j ==> #[trigger] matrix@[i as int][l] <= SCALE,
                    rsum == sum(matrix@[i as int].take(j as int)),
                    rsum <= (j as int) * (u64::MAX as int),
                decreases n - j,
            {
                if matrix.entry(i, j) > SCALE {
                    return Option::None;
                }
                proof {
                    lemma_sum_take_step(matrix@[i as int], j as int);
                    assert((j as int + 1) * (u64::MAX as int) == (j as int) * (u64::MAX as int)
                        + (u64::MAX as int)) by (nonlinear_arith);
                }
                rsum = rsum + (matrix.entry(i, j) as u128);
                j = j + 1;
            }
            proof {
                assert(matrix@[i as int].take(n as int) =~= matrix@[i as int]);
            }
            if rsum > SCALE as u128 {
                return Option::None;
            }
            i = i + 1;
        }
        let mut psum: u128 = 0;
        let mut j: usize = 0;
        proof {
            assert(pre_trust@.take(0) =~= Seq::<u64>::empty());
        }
        while j < n
            invariant
                j <= n,
                n == pre_trust@.len(),
                psum == sum(pre_trust@.take(j as int)),
                psum <= (j as int) * (u64::MAX as int),
            decreases n - j,
        {
            proof {
                lemma_sum_take_step(pre_trust@, j as int);
                assert((j as int + 1) * (u64::MAX as int) == (j as int) * (u64::MAX as int)
                    + (u64::MAX as int)) by (nonlinear_arith);
            }
            psum = psum + (pre_trust[j] as u128);
            j = j + 1;
        }
        proof {
            assert(pre_trust@.take(n as int) =~= pre_trust@);
        }
        if psum > SCALE as u128 {
            return Option::None;
        }
        Option::Some(Self::propagate(matrix, pre_trust, pre_trust_weight, iterations))
    }
}

} // verus!
