use trust_feed::explore::TxRecord;
use trust_feed::matrix::Matrix;
use trust_feed::propagate::TrustPropagator;
use trust_feed::trust::TrustMatrixBuilder;
use trust_feed::SCALE;

fn tx(from: &str, to: &str, value: u32) -> TxRecord {
    TxRecord {
        from: from.to_string(),
        to: to.to_string(),
        value,
    }
}

fn vicinity() -> Vec<String> {
    vec!["a".to_string(), "b".to_string(), "c".to_string()]
}

fn example_records() -> Vec<TxRecord> {
    vec![tx("a", "b", 10), tx("a", "c", 10), tx("b", "a", 5)]
}

fn row(m: &Matrix, i: usize) -> Vec<u64> {
    (0..m.num_cols()).map(|j| m.entry(i, j)).collect()
}

#[test]
fn example_rows_normalize_as_expected() {
    // a spreads over b and c; b's only edge is to a; c is dangling and
    // falls back to the uniform non-self distribution.
    let m = TrustMatrixBuilder::build(&vicinity(), &example_records(), None);
    assert_eq!(row(&m, 0), vec![0, SCALE / 2, SCALE / 2]);
    assert_eq!(row(&m, 1), vec![SCALE, 0, 0]);
    assert_eq!(row(&m, 2), vec![SCALE / 2, SCALE / 2, 0]);
}

#[test]
fn diagonal_is_zero_even_with_self_loops() {
    let records = vec![tx("a", "a", 50), tx("a", "b", 50)];
    let m = TrustMatrixBuilder::build(&vicinity(), &records, None);
    for i in 0..3 {
        assert_eq!(m.entry(i, i), 0);
    }
    // the self-loop weight is dropped, so all of a's trust goes to b
    assert_eq!(row(&m, 0), vec![0, SCALE, 0]);
}

#[test]
fn self_loop_only_row_stays_zero() {
    // a's only weight sits on the diagonal: the row is not dangling, the
    // diagonal is cleared, and nothing is left to normalize.
    let records = vec![tx("a", "a", 50)];
    let m = TrustMatrixBuilder::build(&vec!["a".to_string()], &records, None);
    assert_eq!(row(&m, 0), vec![0]);
}

#[test]
fn excluded_target_receives_no_direct_trust() {
    // with a excluded, b's only edge vanishes and b becomes dangling
    let seed = "a".to_string();
    let m = TrustMatrixBuilder::build(&vicinity(), &example_records(), Some(&seed));
    assert_eq!(row(&m, 0), vec![0, SCALE / 2, SCALE / 2]);
    assert_eq!(row(&m, 1), vec![SCALE / 2, 0, SCALE / 2]);
    assert_eq!(row(&m, 2), vec![SCALE / 2, SCALE / 2, 0]);
}

#[test]
fn weights_aggregate_over_repeated_edges() {
    let records = vec![tx("a", "b", 30), tx("a", "b", 30), tx("a", "c", 20)];
    let m = TrustMatrixBuilder::build(&vicinity(), &records, None);
    // 60 of 80 to b, 20 of 80 to c
    assert_eq!(row(&m, 0), vec![0, 3 * SCALE / 4, SCALE / 4]);
}

#[test]
fn rows_sum_to_one_within_rounding() {
    let records = vec![tx("a", "b", 7), tx("a", "c", 11), tx("b", "c", 13)];
    let vic = vicinity();
    let m = TrustMatrixBuilder::build(&vic, &records, None);
    let n = vic.len() as u64;
    for i in 0..vic.len() {
        let s: u64 = row(&m, i).iter().sum();
        assert!(s <= SCALE);
        assert!(s >= SCALE - (n - 1));
    }
}

#[test]
fn end_to_end_example_one_round() {
    // the built matrix fed straight into one propagation round with
    // pre-trust weight 0.2 and pre-trust concentrated on a
    let m = TrustMatrixBuilder::build(&vicinity(), &example_records(), None);
    let r = TrustPropagator::propagate(&m, &vec![SCALE, 0, 0], SCALE / 5, 1);
    assert_eq!(r, vec![SCALE / 5, 2 * SCALE / 5, 2 * SCALE / 5]);
}
