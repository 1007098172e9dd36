use std::path::PathBuf;

use trust_feed::errors::FeedError;
use trust_feed::explore::TxRecord;
use trust_feed::pipeline::phase1;
use trust_feed::pipeline::phase2;
use trust_feed::storage::CSVFileStorage;
use trust_feed::topics::TopicRecord;
use trust_feed::SCALE;

fn tx(from: &str, to: &str, value: u32) -> TxRecord {
    TxRecord {
        from: from.to_string(),
        to: to.to_string(),
        value,
    }
}

fn topic(from: &str, name: &str, timestamp: u32) -> TopicRecord {
    TopicRecord {
        from: from.to_string(),
        topic: name.to_string(),
        timestamp,
    }
}

#[test]
fn phase1_vicinity_holds_seed_and_neighbors() {
    let records = vec![tx("a", "b", 10), tx("a", "c", 10), tx("b", "a", 5)];
    let res = phase1(&records, &"a".to_string());
    assert_eq!(
        res.vicinity,
        vec!["a".to_string(), "b".to_string(), "c".to_string()]
    );
    assert_eq!(res.global_scores.len(), 3);
}

#[test]
fn phase1_scores_are_bounded_and_positive_at_seed() {
    let records = vec![tx("a", "b", 10), tx("b", "a", 10)];
    let seed = "a".to_string();
    let res = phase1(&records, &seed);
    let total: u64 = res.global_scores.iter().sum();
    assert!(total <= SCALE);
    let sidx = res.index_of(&seed).unwrap();
    // the pre-trust injection keeps the seed's score at least 0.2
    assert!(res.global_scores[sidx] >= SCALE / 5);
}

#[test]
fn phase1_scores_match_the_example_graph() {
    // vicinity a, b, c; a spreads over b and c, b's lone edge points back
    // at a — kept, seed or not — and c is dangling; thirty rounds at
    // pre-trust weight 0.2 settle to these exact fixed-point values
    let records = vec![tx("a", "b", 10), tx("a", "c", 10), tx("b", "a", 5)];
    let res = phase1(&records, &"a".to_string());
    assert_eq!(
        res.global_scores,
        vec![510_204_078, 285_714_283, 204_081_631]
    );
}

#[test]
fn index_of_finds_each_vicinity_address() {
    let records = vec![tx("a", "b", 1)];
    let res = phase1(&records, &"a".to_string());
    for (k, addr) in res.vicinity.iter().enumerate() {
        assert_eq!(res.index_of(addr), Some(k));
    }
    assert_eq!(res.index_of(&"nowhere".to_string()), None);
}

#[test]
fn phase2_applies_default_decay_to_joined_scores() {
    let records = vec![tx("a", "b", 10), tx("a", "c", 10), tx("b", "a", 5)];
    let seed = "a".to_string();
    let mut res = phase1(&records, &seed);
    // pin the scores to known values to check the join arithmetic exactly
    let sidx = res.index_of(&seed).unwrap();
    for s in res.global_scores.iter_mut() {
        *s = 0;
    }
    res.global_scores[sidx] = 2 * SCALE / 5;
    let topics = vec![topic("a", "defi", 90), topic("stranger", "defi", 90)];
    let out = phase2(&res, &topics, 100);
    assert_eq!(out.relevant_topics, vec!["defi".to_string()]);
    // 0.7^10 * 0.4, truncated per step
    assert_eq!(out.topic_scores, vec![11_299_009]);
}

#[test]
fn phase2_with_no_topic_records_is_empty() {
    let records = vec![tx("a", "b", 1)];
    let res = phase1(&records, &"a".to_string());
    let out = phase2(&res, &Vec::new(), 100);
    assert!(out.relevant_topics.is_empty());
    assert!(out.topic_scores.is_empty());
}

#[test]
fn storage_keeps_its_path() {
    let storage = CSVFileStorage::new(PathBuf::from("data/peers.csv"));
    assert_eq!(storage.filepath(), &PathBuf::from("data/peers.csv"));
}

#[test]
fn feed_error_carries_its_message() {
    let e = FeedError::FileIOError("bad row".to_string());
    match e {
        FeedError::FileIOError(msg) => assert_eq!(msg, "bad row"),
        FeedError::IOError(_) => panic!("wrong variant"),
    }
}

#[test]
fn feed_error_wraps_io_errors() {
    let io = std::io::Error::new(std::io::ErrorKind::NotFound, "gone");
    let e = FeedError::IOError(io);
    match e {
        FeedError::IOError(inner) => assert_eq!(inner.kind(), std::io::ErrorKind::NotFound),
        FeedError::FileIOError(_) => panic!("wrong variant"),
    }
}
