//! The two analysis phases, on records already loaded into memory.
//!
//! Phase one discovers the seed's vicinity, builds the local trust matrix
//! over it — every aggregated edge kept, only the diagonal cleared — and
//! runs the power iteration from the pre-trust vector. Phase two joins the
//! resulting scores with the topic records under the crate's decay rate.
use vstd::prelude::*;

use crate::explore::addr_first_index;
use crate::explore::addr_seq;
use crate::explore::addr_set;
use crate::explore::distinct_addrs;
use crate::explore::find_addr;
use crate::explore::lemma_addr_seq_index;
use crate::explore::reach;
use crate::explore::search_neighbours;
use crate::explore::TxRecord;
use crate::fixed::sum;
use crate::matrix::Matrix;
use crate::propagate::int_seq;
use crate::propagate::propagate_seq;
use crate::propagate::TrustPropagator;
use crate::topics::dedup;
use crate::topics::kept;
use crate::topics::topic_total;
use crate::topics::topics_of;
use crate::topics::Phase2Result;
use crate::topics::TopicRecord;
use crate::topics::TopicScorer;
use crate::trust::trust_cell;
use crate::trust::TrustMatrixBuilder;
use crate::NUM_ITER;
use crate::PRE_TRUST_WEIGHT;
use crate::SCALE;
use crate::TIME_DECAY_RATE;

verus! {

/// The local trust matrix of the vicinity, as a mathematical value: cell
/// by cell the normalized weights of [`trust_cell`].
pub open spec fn trust_matrix(
    vic: Seq<String>,
    records: Seq<TxRecord>,
    excl: Option<Seq<char>>,
) -> Seq<Seq<u64>> {
    Seq::new(
        vic.len(),
        |i: int| Seq::new(vic.len(), |j: int| trust_cell(vic, records, excl, i, j) as u64),
    )
}

/// Machine-word prefix sums of a matrix row agree with the normalized
/// prefix sums of its cells.
proof fn lemma_trust_row_sum_eq_prefix(
    vic: Seq<String>,
    records: Seq<TxRecord>,
    excl: Option<Seq<char>>,
    i: int,
    j: int,
)
    requires
        0 <= i < vic.len(),
        0 <= j <= vic.len(),
    ensures
        sum(trust_matrix(vic, records, excl)[i].take(j)) == crate::trust::trust_row_prefix(
            vic,
            records,
            excl,
            i,
            j,
        ),
    decreases j,
{
    let row = trust_matrix(vic, records, excl)[i];
    if j > 0 {
        lemma_trust_row_sum_eq_prefix(vic, records, excl, i, j - 1);
        crate::fixed::lemma_sum_take_step(row, j - 1);
        crate::trust::lemma_trust_cell_bounds(vic, records, excl, i, j - 1);
        assert(row[j - 1] == trust_cell(vic, records, excl, i, j - 1));
    } else {
        assert(row.take(0) =~= Seq::<u64>::empty());
    }
}

/// Each row of the local trust matrix is stochastic up to rounding: its
/// diagonal entry is zero and it sums to one — `SCALE` — within one
/// rounding unit per off-diagonal cell. The one exception is a row whose
/// weight all sat on its own diagonal or on the excluded target: its
/// normalizer vanished and it is left entirely zero.
pub proof fn lemma_trust_matrix_row_stochastic(
    vic: Seq<String>,
    records: Seq<TxRecord>,
    excl: Option<Seq<char>>,
    i: int,
)
    requires
        0 <= i < vic.len(),
    ensures
        trust_matrix(vic, records, excl)[i].len() == vic.len(),
        trust_matrix(vic, records, excl)[i][i] == 0,
        sum(trust_matrix(vic, records, excl)[i]) <= SCALE,
        crate::trust::base_row_sum(vic, records, excl, i) != 0 ==> sum(
            trust_matrix(vic, records, excl)[i],
        ) >= SCALE - (vic.len() - 1),
        crate::trust::base_row_sum(vic, records, excl, i) == 0 ==> sum(
            trust_matrix(vic, records, excl)[i],
        ) == 0,
{
    let n = vic.len() as int;
    let row = trust_matrix(vic, records, excl)[i];
    lemma_trust_row_sum_eq_prefix(vic, records, excl, i, n);
    assert(row.take(n) =~= row);
    let r = crate::trust::base_row_sum(vic, records, excl, i);
    assert(crate::trust::base_weight(vic, records, excl, i, i) == 0);
    if r != 0 {
        crate::trust::lemma_base_prefix_mono(vic, records, excl, i, 0, n);
        crate::trust::lemma_trust_row_prefix_bounds(vic, records, excl, i, n);
        assert(r * SCALE / r == SCALE) by (nonlinear_arith)
            requires
                r > 0,
        ;
        assert(0int * SCALE / r == 0) by (nonlinear_arith)
            requires
                r > 0,
        ;
    } else {
        crate::trust::lemma_trust_row_prefix_zero(vic, records, excl, i, n);
    }
}

/// The pre-trust vector of the vicinity: one at the seed's position, zero
/// everywhere else.
pub open spec fn pre_trust_of(vic: Seq<String>, seed: Seq<char>) -> Seq<u64> {
    Seq::new(
        vic.len(),
        |i: int|
            if i == addr_first_index(vic, seed) {
                SCALE
            } else {
                0u64
            },
    )
}

/// Vicinity and per-address trust scores of one run; the index of an
/// address is recovered by [`Phase1Result::index_of`].
pub struct Phase1Result {
    pub vicinity: Vec<String>,
    pub global_scores: Vec<u64>,
}

impl Phase1Result {
    /// The cached index lookup: the position of an address in the
    /// vicinity, which is also its row in the trust matrix and its slot in
    /// the score vector.
    pub fn index_of(&self, address: &String) -> (r: Option<usize>)
        ensures
            match r {
                Option::Some(k) => k < self.vicinity@.len() && self.vicinity@[k as int]@
                    == address@ && k == addr_first_index(self.vicinity@, address@),
                Option::None => !addr_set(self.vicinity@).contains(address@),
            },
    {
        if crate::explore::contains_addr(&self.vicinity, address) {
            Option::Some(find_addr(&self.vicinity, address))
        } else {
            Option::None
        }
    }
}

/// Discovers the vicinity of `seed`, builds its local trust matrix — every
/// aggregated edge kept, the seed's incoming edges included, only the
/// diagonal cleared — and propagates trust for the crate's fixed number of
/// rounds from the pre-trust vector concentrated on the seed.
pub fn phase1(records: &Vec<TxRecord>, seed: &String) -> (r: Phase1Result)
    requires
        records@.len() < 0x1_0000_0000,
    ensures
        addr_seq(r.vicinity@) == crate::explore::explore_order(seq![seed@], records@, 0),
        addr_set(r.vicinity@) == reach(seq![seed@], records@, 0),
        distinct_addrs(r.vicinity@),
        addr_set(r.vicinity@).contains(seed@),
        r.global_scores@.len() == r.vicinity@.len(),
        int_seq(r.global_scores@) == propagate_seq(
            trust_matrix(r.vicinity@, records@, Option::None),
            pre_trust_of(r.vicinity@, seed@),
            PRE_TRUST_WEIGHT as int,
            NUM_ITER as nat,
        ),
{
    let mut seeds: Vec<String> = Vec::new();
    seeds.push(seed.clone());
    proof {
        assert(addr_seq(seeds@) =~= seq![seed@]);
    }
    let vicinity = search_neighbours(seeds, copy_tx_records(records), 0);
    proof {
        assert(addr_set(vicinity@).contains(seed@));
    }
    let n = vicinity.len();
    proof {
        if n == 0 {
            lemma_addr_seq_index(vicinity@);
            assert(false);
        }
    }
    let matrix = TrustMatrixBuilder::build(&vicinity, records, Option::None);
    proof {
        let ghost tm = trust_matrix(vicinity@, records@, Option::None);
        assert forall|i: int| 0 <= i < n implies #[trigger] matrix@[i] =~= tm[i] by {
            assert(forall|j: int|
                0 <= j < n ==> #[trigger] matrix@[i][j] == trust_cell(
                    vicinity@,
                    records@,
                    Option::None,
                    i,
                    j,
                ));
        }
        assert(matrix@ =~= tm);
    }
    let sidx = find_addr(&vicinity, seed);
    let mut pre_trust: Vec<u64> = Vec::new();
    let mut i: usize = 0;
    proof {
        assert(pre_trust@ =~= pre_trust_of(vicinity@, seed@).take(0));
        crate::fixed::lemma_sum_nonneg(pre_trust@);
    }
    while i < n
        invariant
            i <= n,
            n == vicinity@.len(),
            sidx == addr_first_index(vicinity@, seed@),
            sidx < n,
            pre_trust@ == pre_trust_of(vicinity@, seed@).take(i as int),
            sum(pre_trust@) == if i > sidx {
                SCALE as int
            } else {
                0
            },
        decreases n - i,
    {
        let ghost before = pre_trust@;
        if i == sidx {
            pre_trust.push(SCALE);
        } else {
            pre_trust.push(0);
        }
        proof {
            assert(pre_trust@.drop_last() =~= before);
            assert(pre_trust@ =~= pre_trust_of(vicinity@, seed@).take(i as int + 1));
        }
        i = i + 1;
    }
    proof {
        assert(pre_trust@ =~= pre_trust_of(vicinity@, seed@));
    }
    let scores = TrustPropagator::propagate(&matrix, &pre_trust, PRE_TRUST_WEIGHT, NUM_ITER);
    Phase1Result { vicinity, global_scores: scores }
}

/// Joins phase-one scores with the topic records under the crate's decay
/// rate, as of hour `now_hours`.
pub fn phase2(phase1_res: &Phase1Result, records: &Vec<TopicRecord>, now_hours: u64) -> (r:
    Phase2Result)
    requires
        phase1_res.vicinity@.len() == phase1_res.global_scores@.len(),
    ensures
        ({
            let ded = dedup(kept(records@, phase1_res.vicinity@));
            &&& r.relevant_topics@ == topics_of(ded)
            &&& r.topic_scores@.len() == r.relevant_topics@.len()
            &&& forall|k: int|
                0 <= k < r.relevant_topics@.len() ==> #[trigger] r.topic_scores@[k]
                    == topic_total(
                    ded,
                    r.relevant_topics@[k]@,
                    phase1_res.vicinity@,
                    phase1_res.global_scores@,
                    now_hours,
                    TIME_DECAY_RATE,
                )
        }),
{
    TopicScorer::score(
        &phase1_res.vicinity,
        &phase1_res.global_scores,
        records,
        now_hours,
        TIME_DECAY_RATE,
    )
}

/// A fresh copy of the transaction records, field by field.
fn copy_tx_records(records: &Vec<TxRecord>) -> (r: Vec<TxRecord>)
    ensures
        r@ == records@,
{
    let n = records.len();
    let mut out: Vec<TxRecord> = Vec::new();
    let mut i: usize = 0;
    while i < n
        invariant
            i <= n,
            n == records@.len(),
            out@ == records@.take(i as int),
        decreases n - i,
    {
        let e = TxRecord {
            from: records[i].from.clone(),
            to: records[i].to.clone(),
            value: records[i].value,
        };
        proof {
            assert(e == records@[i as int]);
        }
        out.push(e);
        proof {
            assert(out@ =~= records@.take(i as int + 1));
        }
        i = i + 1;
    }
    proof {
        assert(records@.take(n as int) =~= records@);
    }
    out
}

} // verus!
