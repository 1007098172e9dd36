use trust_feed::topics::decay;
use trust_feed::topics::decay_with_rate;
use trust_feed::topics::Phase2Result;
use trust_feed::topics::TopicRecord;
use trust_feed::topics::TopicScorer;
use trust_feed::SCALE;

fn rec(from: &str, topic: &str, timestamp: u32) -> TopicRecord {
    TopicRecord {
        from: from.to_string(),
        topic: topic.to_string(),
        timestamp,
    }
}

fn score_of(r: &Phase2Result, topic: &str) -> Option<u64> {
    r.relevant_topics
        .iter()
        .position(|t| t == topic)
        .map(|k| r.topic_scores[k])
}

const RATE: u64 = 700_000_000; // 0.7 in fixed point

#[test]
fn decay_of_age_zero_is_one() {
    assert_eq!(decay_with_rate(RATE, 100, 100), SCALE);
}

#[test]
fn decay_of_age_one_is_the_rate() {
    assert_eq!(decay_with_rate(RATE, 101, 100), RATE);
    assert_eq!(decay_with_rate(RATE, 102, 100), 490_000_000);
}

#[test]
fn decay_example_ten_hours() {
    // 0.7^10 = 0.0282475249, truncated at nine decimal places per step
    assert_eq!(decay_with_rate(RATE, 100, 90), 28_247_524);
}

#[test]
fn default_rate_decay_matches_explicit_rate() {
    assert_eq!(decay(100, 90), decay_with_rate(RATE, 100, 90));
}

#[test]
fn future_timestamps_amplify() {
    // 0.7^(-1) = 1/0.7, truncated
    assert_eq!(decay_with_rate(RATE, 100, 101), 1_428_571_428);
}

#[test]
fn decay_example_weighted_by_trust() {
    // decay 0.7^10 times a trust score of 0.4 gives roughly 0.0113
    let vicinity = vec!["a".to_string()];
    let scores = vec![2 * SCALE / 5];
    let records = vec![rec("a", "defi", 90)];
    let r = TopicScorer::score(&vicinity, &scores, &records, 100, RATE);
    assert_eq!(r.relevant_topics, vec!["defi".to_string()]);
    assert_eq!(r.topic_scores, vec![11_299_009]);
}

#[test]
fn outside_vicinity_entries_are_excluded() {
    let vicinity = vec!["a".to_string()];
    let scores = vec![SCALE];
    let records = vec![rec("stranger", "defi", 100), rec("a", "nft", 100)];
    let r = TopicScorer::score(&vicinity, &scores, &records, 100, RATE);
    assert_eq!(r.relevant_topics, vec!["nft".to_string()]);
    assert_eq!(score_of(&r, "defi"), None);
}

#[test]
fn later_record_overwrites_earlier_timestamp() {
    let vicinity = vec!["a".to_string()];
    let scores = vec![SCALE];
    // same (address, topic) key twice: the second timestamp wins
    let records = vec![rec("a", "defi", 90), rec("a", "defi", 99)];
    let r = TopicScorer::score(&vicinity, &scores, &records, 100, RATE);
    assert_eq!(r.topic_scores, vec![RATE]);
}

#[test]
fn contributions_to_one_topic_sum_over_addresses() {
    let vicinity = vec!["a".to_string(), "b".to_string()];
    let scores = vec![SCALE / 5, SCALE / 10];
    let records = vec![rec("a", "defi", 100), rec("b", "defi", 100)];
    let r = TopicScorer::score(&vicinity, &scores, &records, 100, RATE);
    assert_eq!(r.topic_scores, vec![SCALE / 5 + SCALE / 10]);
}

#[test]
fn topics_keep_first_appearance_order() {
    let vicinity = vec!["a".to_string()];
    let scores = vec![SCALE];
    let records = vec![rec("a", "nft", 100), rec("a", "defi", 100), rec("a", "nft", 100)];
    let r = TopicScorer::score(&vicinity, &scores, &records, 100, RATE);
    assert_eq!(
        r.relevant_topics,
        vec!["nft".to_string(), "defi".to_string()]
    );
}
