//! Attribution of propagated trust to topics, decayed by recency.
//!
//! A topic record says that an address engaged with a topic at some hour.
//! Records whose address lies outside the vicinity are excluded outright;
//! the rest are deduplicated by `(address, topic)` key, the last timestamp
//! winning; each surviving entry contributes its address's trust score,
//! decayed exponentially by the entry's age, to its topic's total.
use vstd::prelude::*;

use crate::explore::addr_first_index;
use crate::explore::addr_set;
use crate::explore::contains_addr;
use crate::explore::find_addr;
use crate::fixed::mul_fp;
use crate::fixed::sat_add;
use crate::fixed::sat_add_u64;
use crate::fixed::sat_fp_mul;
use crate::fixed::sat_mul_fp;
use crate::SCALE;

verus! {

/// One observed engagement: address `from` touched `topic` at hour
/// `timestamp`.
pub struct TopicRecord {
    pub from: String,
    pub topic: String,
    pub timestamp: u32,
}

/// Per-topic relevance: `topic_scores[k]` is the aggregated decayed score
/// of `relevant_topics[k]`.
pub struct Phase2Result {
    pub relevant_topics: Vec<String>,
    pub topic_scores: Vec<u64>,
}

/// `rate^age` in fixed point, one truncating multiplication per step,
/// capped at the largest machine word.
///
/// The resolution is one `SCALE` unit: once the true power falls below
/// `1 / SCALE` the result is exactly zero — for a rate of `0.7` that is
/// every age from 56 hours on — and entries that old contribute nothing.
/// Binary floating point would instead keep ever-smaller positive values;
/// the exact integer convention trades that tail for bit-reproducible
/// results.
pub open spec fn pow_fp(rate: int, age: nat) -> int
    decreases age,
{
    if age == 0 {
        SCALE as int
    } else {
        let v = mul_fp(pow_fp(rate, (age - 1) as nat), rate);
        if v > u64::MAX {
            u64::MAX as int
        } else {
            v
        }
    }
}

/// `rate^(-age)` in fixed point, one truncating division per step, capped
/// at the largest machine word; a zero rate saturates outright.
pub open spec fn grow_fp(rate: int, age: nat) -> int
    decreases age,
{
    if age == 0 {
        SCALE as int
    } else if rate == 0 {
        u64::MAX as int
    } else {
        let v = grow_fp(rate, (age - 1) as nat) * SCALE / rate;
        if v > u64::MAX {
            u64::MAX as int
        } else {
            v
        }
    }
}

/// Exponential decay factor `rate^(now - ts)` in fixed point. An entry
/// older than `now` is damped; one stamped in the future is amplified —
/// a valid input, not an error.
pub open spec fn decay_factor(rate: u64, now: u64, ts: u64) -> int {
    if ts <= now {
        pow_fp(rate as int, (now - ts) as nat)
    } else {
        grow_fp(rate as int, (ts - now) as nat)
    }
}

/// Damping powers are never negative and fit a machine word.
pub proof fn lemma_pow_fp_nonneg(rate: int, age: nat)
    requires
        0 <= rate,
    ensures
        0 <= pow_fp(rate, age) <= u64::MAX,
    decreases age,
{
    if age > 0 {
        lemma_pow_fp_nonneg(rate, (age - 1) as nat);
        let prev = pow_fp(rate, (age - 1) as nat);
        assert(prev * rate >= 0) by (nonlinear_arith)
            requires
                prev >= 0,
                rate >= 0,
        ;
        vstd::arithmetic::div_mod::lemma_div_pos_is_pos(prev * rate, SCALE as int);
    }
}

/// Amplifying powers are never negative and fit a machine word.
pub proof fn lemma_grow_fp_nonneg(rate: int, age: nat)
    requires
        0 <= rate,
    ensures
        0 <= grow_fp(rate, age) <= u64::MAX,
    decreases age,
{
    if age > 0 && rate != 0 {
        lemma_grow_fp_nonneg(rate, (age - 1) as nat);
        let prev = grow_fp(rate, (age - 1) as nat);
        assert(prev * SCALE >= 0) by (nonlinear_arith)
            requires
                prev >= 0,
        ;
        vstd::arithmetic::div_mod::lemma_div_pos_is_pos(prev * SCALE, rate);
    }
}

/// The decay factor of `tx_time` seen from `current`, under `rate`.
///
/// Ages count whole hours, and the factor has the resolution of one
/// `SCALE` unit (see [`pow_fp`]): under the default rate it reaches
/// exactly zero for entries 56 or more hours old.
pub fn decay_with_rate(rate: u64, current: u64, tx_time: u64) -> (r: u64)
    ensures
        r == decay_factor(rate, current, tx_time),
{
    if tx_time <= current {
        let age = current - tx_time;
        let mut k: u64 = 0;
        let mut r: u64 = SCALE;
        proof {
            lemma_pow_fp_nonneg(rate as int, 0);
        }
        while k < age
            invariant
                k <= age,
                r == pow_fp(rate as int, k as nat),
                0 <= r <= u64::MAX,
            decreases age - k,
        {
            proof {
                assert((r as int) * (rate as int) >= 0) by (nonlinear_arith)
                    requires
                        r as int >= 0,
                        rate as int >= 0,
                ;
                vstd::arithmetic::div_mod::lemma_div_pos_is_pos(
                    (r as int) * (rate as int),
                    SCALE as int,
                );
                assert((r as int) * (rate as int) <= (u64::MAX as int) * (u64::MAX
                    as int)) by (nonlinear_arith)
                    requires
                        0 <= r as int <= u64::MAX as int,
                        0 <= rate as int <= u64::MAX as int,
                ;
                assert((r as u128) * (rate as u128) == (r as int) * (rate as int))
                    by (nonlinear_arith);
            }
            let wide: u128 = (r as u128) * (rate as u128) / (SCALE as u128);
            r = if wide > u64::MAX as u128 {
                u64::MAX
            } else {
                wide as u64
            };
            k = k + 1;
        }
        r
    } else {
        let age = tx_time - current;
        if rate == 0 {
            if age > 0 {
                return u64::MAX;
            }
            return SCALE;
        }
        let mut k: u64 = 0;
        let mut r: u64 = SCALE;
        while k < age
            invariant
                k <= age,
                rate != 0,
                r == grow_fp(rate as int, k as nat),
                0 <= r <= u64::MAX,
            decreases age - k,
        {
            proof {
                assert((r as int) * (SCALE as int) >= 0) by (nonlinear_arith)
                    requires
                        r as int >= 0,
                ;
                vstd::arithmetic::div_mod::lemma_div_pos_is_pos(
                    (r as int) * (SCALE as int),
                    rate as int,
                );
                assert((r as int) * (SCALE as int) <= (u64::MAX as int) * (u64::MAX
                    as int)) by (nonlinear_arith)
                    requires
                        0 <= r as int <= u64::MAX as int,
                ;
                assert((r as u128) * (SCALE as u128) == (r as int) * (SCALE as int))
                    by (nonlinear_arith);
            }
            let wide: u128 = (r as u128) * (SCALE as u128) / (rate as u128);
            r = if wide > u64::MAX as u128 {
                u64::MAX
            } else {
                wide as u64
            };
            k = k + 1;
        }
        r
    }
}

/// The decay factor under the crate's default decay rate.
pub fn decay(current: u64, tx_time: u64) -> (r: u64)
    ensures
        r == decay_factor(crate::TIME_DECAY_RATE, current, tx_time),
{
    decay_with_rate(crate::TIME_DECAY_RATE, current, tx_time)
}

/// Records whose address lies in the vicinity, in record order; the others
/// never reach the accumulation.
pub open spec fn kept(records: Seq<TopicRecord>, vic: Seq<String>) -> Seq<TopicRecord>
    decreases records.len(),
{
    if records.len() == 0 {
        Seq::empty()
    } else {
        let rest = kept(records.drop_last(), vic);
        if addr_set(vic).contains(records.last().from@) {
            rest.push(records.last())
        } else {
            rest
        }
    }
}

/// Whether some entry carries the key `(f, t)`.
pub open spec fn has_key(entries: Seq<TopicRecord>, f: Seq<char>, t: Seq<char>) -> bool {
    exists|i: int|
        0 <= i < entries.len() && entries[i].from@ == f && entries[i].topic@ == t
}

/// The position of the key `(f, t)`; meaningful only where keys are
/// distinct.
pub open spec fn key_index(entries: Seq<TopicRecord>, f: Seq<char>, t: Seq<char>) -> int {
    choose|i: int| 0 <= i < entries.len() && entries[i].from@ == f && entries[i].topic@ == t
}

/// Folding one record into the keyed entries: a known key takes the new
/// timestamp — the last record wins — and a new key is appended.
pub open spec fn dedup_step(acc: Seq<TopicRecord>, tr: TopicRecord) -> Seq<TopicRecord> {
    if has_key(acc, tr.from@, tr.topic@) {
        let i = key_index(acc, tr.from@, tr.topic@);
        acc.update(
            i,
            TopicRecord { from: acc[i].from, topic: acc[i].topic, timestamp: tr.timestamp },
        )
    } else {
        acc.push(tr)
    }
}

/// Entries keyed by `(address, topic)`, in order of first appearance, each
/// carrying the timestamp of its key's last record.
pub open spec fn dedup(entries: Seq<TopicRecord>) -> Seq<TopicRecord>
    decreases entries.len(),
{
    if entries.len() == 0 {
        Seq::empty()
    } else {
        dedup_step(dedup(entries.drop_last()), entries.last())
    }
}

/// No two entries share a key.
pub open spec fn distinct_keys(entries: Seq<TopicRecord>) -> bool {
    forall|i: int, j: int|
        0 <= i < j < entries.len() ==> !(entries[i].from@ == entries[j].from@
            && entries[i].topic@ == entries[j].topic@)
}

/// Whether the topic list holds `t`.
pub open spec fn has_topic(ts: Seq<String>, t: Seq<char>) -> bool {
    exists|i: int| 0 <= i < ts.len() && ts[i]@ == t
}

/// The topics of the entries, first appearance first, each once.
pub open spec fn topics_of(entries: Seq<TopicRecord>) -> Seq<String>
    decreases entries.len(),
{
    if entries.len() == 0 {
        Seq::empty()
    } else {
        let rest = topics_of(entries.drop_last());
        if has_topic(rest, entries.last().topic@) {
            rest
        } else {
            rest.push(entries.last().topic)
        }
    }
}

/// The decayed, trust-weighted contribution of one entry: its decay factor
/// times the trust score of its address, saturating.
pub open spec fn weighted_of(
    e: TopicRecord,
    vic: Seq<String>,
    scores: Seq<u64>,
    now: u64,
    rate: u64,
) -> int {
    sat_mul_fp(
        decay_factor(rate, now, e.timestamp as u64),
        scores[addr_first_index(vic, e.from@)] as int,
    )
}

/// Total decayed, trust-weighted score of topic `t` over the entries, the
/// contributions added in entry order with saturation.
pub open spec fn topic_total(
    entries: Seq<TopicRecord>,
    t: Seq<char>,
    vic: Seq<String>,
    scores: Seq<u64>,
    now: u64,
    rate: u64,
) -> int
    decreases entries.len(),
{
    if entries.len() == 0 {
        0
    } else {
        let rest = topic_total(entries.drop_last(), t, vic, scores, now, rate);
        if entries.last().topic@ == t {
            sat_add(rest, weighted_of(entries.last(), vic, scores, now, rate))
        } else {
            rest
        }
    }
}

/// A topic absent from the entries accumulates nothing.
proof fn lemma_topic_total_absent(
    entries: Seq<TopicRecord>,
    t: Seq<char>,
    vic: Seq<String>,
    scores: Seq<u64>,
    now: u64,
    rate: u64,
)
    requires
        forall|i: int| 0 <= i < entries.len() ==> entries[i].topic@ != t,
    ensures
        topic_total(entries, t, vic, scores, now, rate) == 0,
    decreases entries.len(),
{
    if entries.len() > 0 {
        assert(forall|i: int|
            0 <= i < entries.len() - 1 ==> entries.drop_last()[i].topic@ != t);
        lemma_topic_total_absent(entries.drop_last(), t, vic, scores, now, rate);
    }
}

/// The topic list of the entries holds exactly the entries' topics.
proof fn lemma_topics_of_complete(entries: Seq<TopicRecord>, t: Seq<char>)
    ensures
        has_topic(topics_of(entries), t) <==> (exists|i: int|
            0 <= i < entries.len() && entries[i].topic@ == t),
    decreases entries.len(),
{
    if entries.len() > 0 {
        lemma_topics_of_complete(entries.drop_last(), t);
        let rest = topics_of(entries.drop_last());
        let last = entries.last();
        if has_topic(rest, last.topic@) {
            if last.topic@ == t {
                assert(has_topic(topics_of(entries), t));
            }
            if exists|i: int| 0 <= i < entries.len() && entries[i].topic@ == t {
                let i = choose|i: int| 0 <= i < entries.len() && entries[i].topic@ == t;
                if i < entries.len() - 1 {
                    assert(entries.drop_last()[i].topic@ == t);
                }
            }
        } else {
            let full = rest.push(last.topic);
            if has_topic(full, t) {
                let k = choose|k: int| 0 <= k < full.len() && full[k]@ == t;
                if k < rest.len() {
                    assert(has_topic(rest, t));
                } else {
                    assert(entries.last().topic@ == t);
                }
            }
            if exists|i: int| 0 <= i < entries.len() && entries[i].topic@ == t {
                let i = choose|i: int| 0 <= i < entries.len() && entries[i].topic@ == t;
                if i < entries.len() - 1 {
                    assert(entries.drop_last()[i].topic@ == t);
                    let k = choose|k: int| 0 <= k < rest.len() && rest[k]@ == t;
                    assert(full[k]@ == t);
                } else {
                    assert(full[rest.len() as int]@ == t);
                }
            }
        }
    }
}

/// With distinct keys, a matching position is the key's index.
proof fn lemma_key_index_unique(entries: Seq<TopicRecord>, i: int)
    requires
        distinct_keys(entries),
        0 <= i < entries.len(),
    ensures
        key_index(entries, entries[i].from@, entries[i].topic@) == i,
{
    let f = entries[i].from@;
    let t = entries[i].topic@;
    assert(has_key(entries, f, t));
    let j = key_index(entries, f, t);
    if j < i {
        assert(false);
    } else if j > i {
        assert(false);
    }
}

/// Every kept entry's address lies in the vicinity.
proof fn lemma_kept_in_vic(records: Seq<TopicRecord>, vic: Seq<String>, i: int)
    requires
        0 <= i < kept(records, vic).len(),
    ensures
        addr_set(vic).contains(kept(records, vic)[i].from@),
    decreases records.len(),
{
    if records.len() > 0 {
        let rest = kept(records.drop_last(), vic);
        if i < rest.len() {
            lemma_kept_in_vic(records.drop_last(), vic, i);
        }
    }
}

/// Deduplication keeps every entry's address within the given set.
proof fn lemma_dedup_in_vic(entries: Seq<TopicRecord>, vic: Seq<String>, i: int)
    requires
        forall|j: int|
            0 <= j < entries.len() ==> addr_set(vic).contains(#[trigger] entries[j].from@),
        0 <= i < dedup(entries).len(),
    ensures
        addr_set(vic).contains(dedup(entries)[i].from@),
    decreases entries.len(),
{
    if entries.len() > 0 {
        let rest = dedup(entries.drop_last());
        let last = entries.last();
        assert(forall|j: int|
            0 <= j < entries.len() - 1 ==> addr_set(vic).contains(
                #[trigger] entries.drop_last()[j].from@,
            ));
        if has_key(rest, last.from@, last.topic@) {
            let k = key_index(rest, last.from@, last.topic@);
            if i == k {
                lemma_dedup_in_vic(entries.drop_last(), vic, i);
            } else {
                lemma_dedup_in_vic(entries.drop_last(), vic, i);
            }
        } else {
            if i < rest.len() {
                lemma_dedup_in_vic(entries.drop_last(), vic, i);
            }
        }
    }
}

/// First entry carrying the key `(f, t)`, if any.
fn find_key(entries: &Vec<TopicRecord>, f: &String, t: &String) -> (r: Option<usize>)
    ensures
        match r {
            Option::Some(k) => 0 <= k < entries@.len() && entries@[k as int].from@ == f@
                && entries@[k as int].topic@ == t@,
            Option::None => !has_key(entries@, f@, t@),
        },
{
    let n = entries.len();
    let mut i: usize = 0;
    while i < n
        invariant
            i <= n,
            n == entries@.len(),
            forall|k: int|
                0 <= k < i ==> !(entries@[k].from@ == f@ && entries@[k].topic@ == t@),
        decreases n - i,
    {
        if entries[i].from == *f && entries[i].topic == *t {
            return Option::Some(i);
        }
        i = i + 1;
    }
    Option::None
}

/// First topic equal to `t`, if any.
fn find_topic(ts: &Vec<String>, t: &String) -> (r: Option<usize>)
    ensures
        match r {
            Option::Some(k) => 0 <= k < ts@.len() && ts@[k as int]@ == t@,
            Option::None => !has_topic(ts@, t@),
        },
{
    let n = ts.len();
    let mut i: usize = 0;
    while i < n
        invariant
            i <= n,
            n == ts@.len(),
            forall|k: int| 0 <= k < i ==> ts@[k]@ != t@,
        decreases n - i,
    {
        if ts[i] == *t {
            return Option::Some(i);
        }
        i = i + 1;
    }
    Option::None
}

/// A record whose address lies outside the vicinity changes nothing: the
/// whole scoring pipeline — exclusion, keyed deduplication, topic list and
/// every topic total — gives the same result with or without it.
pub proof fn lemma_outside_record_ignored(
    records: Seq<TopicRecord>,
    vic: Seq<String>,
    e: TopicRecord,
    t: Seq<char>,
    scores: Seq<u64>,
    now: u64,
    rate: u64,
)
    requires
        !addr_set(vic).contains(e.from@),
    ensures
        kept(records.push(e), vic) == kept(records, vic),
        dedup(kept(records.push(e), vic)) == dedup(kept(records, vic)),
        topics_of(dedup(kept(records.push(e), vic))) == topics_of(dedup(kept(records, vic))),
        topic_total(dedup(kept(records.push(e), vic)), t, vic, scores, now, rate) == topic_total(
            dedup(kept(records, vic)),
            t,
            vic,
            scores,
            now,
            rate,
        ),
{
    assert(records.push(e).drop_last() =~= records);
    assert(records.push(e).last() == e);
}

/// Aggregator of decayed topic relevance.
pub struct TopicScorer {}

impl TopicScorer {
    /// Joins the trust scores with the topic records and aggregates the
    /// decayed, trust-weighted relevance of each topic.
    ///
    /// Records whose address is outside the vicinity are excluded
    /// entirely — they never reach the accumulation. The rest are keyed by
    /// `(address, topic)`, the last timestamp per key winning; each key
    /// then contributes `decay_factor * score_of(address)` to its topic.
    /// Topics appear in order of first appearance; additions saturate at
    /// the largest machine word.
    pub fn score(
        vicinity: &Vec<String>,
        global_scores: &Vec<u64>,
        topic_records: &Vec<TopicRecord>,
        now_hours: u64,
        decay_rate: u64,
    ) -> (r: Phase2Result)
        requires
            vicinity@.len() == global_scores@.len(),
        ensures
            ({
                let ded = dedup(kept(topic_records@, vicinity@));
                &&& r.relevant_topics@ == topics_of(ded)
                &&& r.topic_scores@.len() == r.relevant_topics@.len()
                &&& forall|k: int|
                    0 <= k < r.relevant_topics@.len() ==> #[trigger] r.topic_scores@[k]
                        == topic_total(
                        ded,
                        r.relevant_topics@[k]@,
                        vicinity@,
                        global_scores@,
                        now_hours,
                        decay_rate,
                    )
            }),
    {
        let n = topic_records.len();
        let mut keptv: Vec<TopicRecord> = Vec::new();
        proof {
            assert(topic_records@.take(0) =~= Seq::<TopicRecord>::empty());
        }
        let mut i: usize = 0;
        while i < n
            invariant
                i <= n,
                n == topic_records@.len(),
                keptv@ == kept(topic_records@.take(i as int), vicinity@),
            decreases n - i,
        {
            proof {
                assert(topic_records@.take(i as int + 1).drop_last() =~= topic_records@.take(
                    i as int,
                ));
                assert(topic_records@.take(i as int + 1).last() == topic_records@[i as int]);
            }
            if contains_addr(vicinity, &topic_records[i].from) {
                let e = TopicRecord {
                    from: topic_records[i].from.clone(),
                    topic: topic_records[i].topic.clone(),
                    timestamp: topic_records[i].timestamp,
                };
                proof {
                    assert(e == topic_records@[i as int]);
                }
                keptv.push(e);
            }
            i = i + 1;
        }
        proof {
            assert(topic_records@.take(n as int) =~= topic_records@);
        }
        let m = keptv.len();
        let mut acc: Vec<TopicRecord> = Vec::new();
        proof {
            assert(keptv@.take(0) =~= Seq::<TopicRecord>::empty());
        }
        let mut p: usize = 0;
        while p < m
            invariant
                p <= m,
                m == keptv@.len(),
                acc@ == dedup(keptv@.take(p as int)),
                distinct_keys(acc@),
            decreases m - p,
        {
            proof {
                assert(keptv@.take(p as int + 1).drop_last() =~= keptv@.take(p as int));
                assert(keptv@.take(p as int + 1).last() == keptv@[p as int]);
            }
            let found = find_key(&acc, &keptv[p].from, &keptv[p].topic);
            match found {
                Option::Some(k) => {
                    proof {
                        lemma_key_index_unique(acc@, k as int);
                    }
                    let e = TopicRecord {
                        from: acc[k].from.clone(),
                        topic: acc[k].topic.clone(),
                        timestamp: keptv[p].timestamp,
                    };
                    acc.set(k, e);
                    proof {
                        assert(acc@ =~= dedup(keptv@.take(p as int + 1)));
                    }
                },
                Option::None => {
                    let e = TopicRecord {
                        from: keptv[p].from.clone(),
                        topic: keptv[p].topic.clone(),
                        timestamp: keptv[p].timestamp,
                    };
                    proof {
                        assert(e == keptv@[p as int]);
                    }
                    acc.push(e);
                    proof {
                        assert(acc@ =~= dedup(keptv@.take(p as int + 1)));
                    }
                },
            }
            p = p + 1;
        }
        proof {
            assert(keptv@.take(m as int) =~= keptv@);
        }
        let ghost ded = dedup(kept(topic_records@, vicinity@));
        proof {
            assert(acc@ == ded);
        }
        let d = acc.len();
        let mut topics: Vec<String> = Vec::new();
        let mut tscores: Vec<u64> = Vec::new();
        proof {
            assert(ded.take(0) =~= Seq::<TopicRecord>::empty());
        }
        let mut q: usize = 0;
        while q < d
            invariant
                q <= d,
                d == acc@.len(),
                acc@ == ded,
                ded == dedup(kept(topic_records@, vicinity@)),
                vicinity@.len() == global_scores@.len(),
                topics@ == topics_of(ded.take(q as int)),
                tscores@.len() == topics@.len(),
                forall|k: int, l: int| 0 <= k < l < topics@.len() ==> topics@[k]@ != topics@[l]@,
                forall|k: int|
                    0 <= k < topics@.len() ==> #[trigger] tscores@[k] == topic_total(
                        ded.take(q as int),
                        topics@[k]@,
                        vicinity@,
                        global_scores@,
                        now_hours,
                        decay_rate,
                    ),
            decreases d - q,
        {
            proof {
                assert(ded.take(q as int + 1).drop_last() =~= ded.take(q as int));
                assert(ded.take(q as int + 1).last() == ded[q as int]);
                assert forall|j: int|
                    0 <= j < kept(topic_records@, vicinity@).len() implies addr_set(
                    vicinity@,
                ).contains(#[trigger] kept(topic_records@, vicinity@)[j].from@) by {
                    lemma_kept_in_vic(topic_records@, vicinity@, j);
                }
                lemma_dedup_in_vic(kept(topic_records@, vicinity@), vicinity@, q as int);
            }
            let fidx = find_addr(vicinity, &acc[q].from);
            let dval = decay_with_rate(decay_rate, now_hours, acc[q].timestamp as u64);
            let w = sat_fp_mul(dval, global_scores[fidx]);
            proof {
                assert(w == weighted_of(
                    ded[q as int],
                    vicinity@,
                    global_scores@,
                    now_hours,
                    decay_rate,
                ));
            }
            let ft = find_topic(&topics, &acc[q].topic);
            match ft {
                Option::Some(k) => {
                    let cur = tscores[k];
                    tscores.set(k, sat_add_u64(cur, w));
                    proof {
                        assert(has_topic(topics_of(ded.take(q as int)), ded[q as int].topic@));
                        assert(topics_of(ded.take(q as int + 1)) == topics@);
                        assert forall|l: int|
                            0 <= l < topics@.len() implies #[trigger] tscores@[l] == topic_total(
                            ded.take(q as int + 1),
                            topics@[l]@,
                            vicinity@,
                            global_scores@,
                            now_hours,
                            decay_rate,
                        ) by {
                            if l == k {
                                assert(topics@[l]@ == ded[q as int].topic@);
                            } else {
                                assert(topics@[l]@ != ded[q as int].topic@);
                            }
                        }
                    }
                },
                Option::None => {
                    topics.push(acc[q].topic.clone());
                    tscores.push(w);
                    proof {
                        assert(topics@ =~= topics_of(ded.take(q as int + 1)));
                        lemma_topics_of_complete(ded.take(q as int), ded[q as int].topic@);
                        lemma_topic_total_absent(
                            ded.take(q as int),
                            ded[q as int].topic@,
                            vicinity@,
                            global_scores@,
                            now_hours,
                            decay_rate,
                        );
                        assert forall|l: int|
                            0 <= l < topics@.len() implies #[trigger] tscores@[l] == topic_total(
                            ded.take(q as int + 1),
                            topics@[l]@,
                            vicinity@,
                            global_scores@,
                            now_hours,
                            decay_rate,
                        ) by {
                            if l == topics@.len() - 1 {
                                assert(topics@[l]@ == ded[q as int].topic@);
                            } else {
                                assert(topics@[l]@ != ded[q as int].topic@);
                            }
                        }
                    }
                },
            }
            q = q + 1;
        }
        proof {
            assert(ded.take(d as int) =~= ded);
        }
        Phase2Result { relevant_topics: topics, topic_scores: tscores }
    }
}

} // verus!
