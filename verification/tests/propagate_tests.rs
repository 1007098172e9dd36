use trust_feed::matrix::Matrix;
use trust_feed::propagate::TrustPropagator;
use trust_feed::SCALE;

fn example_matrix() -> Matrix {
    Matrix::new(vec![
        vec![0, SCALE / 2, SCALE / 2],
        vec![SCALE, 0, 0],
        vec![SCALE / 2, SCALE / 2, 0],
    ])
}

fn pre_trust() -> Vec<u64> {
    vec![SCALE, 0, 0]
}

#[test]
fn one_round_blends_propagated_and_pre_trust() {
    // transpose(M) * [1, 0, 0] = [0, 0.5, 0.5];
    // 0.8 * [0, 0.5, 0.5] + 0.2 * [1, 0, 0] = [0.2, 0.4, 0.4]
    let m = example_matrix();
    let r = TrustPropagator::propagate(&m, &pre_trust(), SCALE / 5, 1);
    assert_eq!(r, vec![SCALE / 5, 2 * SCALE / 5, 2 * SCALE / 5]);
}

#[test]
fn zero_rounds_return_pre_trust() {
    let m = example_matrix();
    let r = TrustPropagator::propagate(&m, &pre_trust(), SCALE / 5, 0);
    assert_eq!(r, pre_trust());
}

#[test]
fn full_pre_trust_weight_freezes_scores() {
    let m = example_matrix();
    for iterations in [1, 5, 30] {
        let r = TrustPropagator::propagate(&m, &pre_trust(), SCALE, iterations);
        assert_eq!(r, pre_trust());
    }
}

#[test]
fn propagation_is_deterministic() {
    let r1 = TrustPropagator::propagate(&example_matrix(), &pre_trust(), SCALE / 5, 30);
    let r2 = TrustPropagator::propagate(&example_matrix(), &pre_trust(), SCALE / 5, 30);
    assert_eq!(r1, r2);
}

#[test]
fn scores_stay_bounded_over_many_rounds() {
    let r = TrustPropagator::propagate(&example_matrix(), &pre_trust(), SCALE / 5, 100);
    let total: u64 = r.iter().sum();
    assert!(total <= SCALE);
}

#[test]
fn checked_propagation_accepts_valid_inputs() {
    let m = example_matrix();
    let r = TrustPropagator::propagate_checked(&m, &pre_trust(), SCALE / 5, 1);
    assert_eq!(r, Some(vec![SCALE / 5, 2 * SCALE / 5, 2 * SCALE / 5]));
}

#[test]
fn checked_propagation_rejects_dimension_mismatch() {
    let m = example_matrix();
    let short = vec![SCALE, 0];
    assert_eq!(TrustPropagator::propagate_checked(&m, &short, SCALE / 5, 1), None);
}

#[test]
fn checked_propagation_rejects_excessive_weight() {
    let m = example_matrix();
    assert_eq!(
        TrustPropagator::propagate_checked(&m, &pre_trust(), SCALE + 1, 1),
        None
    );
}

#[test]
fn checked_propagation_rejects_superstochastic_rows() {
    let m = Matrix::new(vec![vec![SCALE, SCALE], vec![0, 0]]);
    assert_eq!(
        TrustPropagator::propagate_checked(&m, &vec![SCALE, 0], SCALE / 5, 1),
        None
    );
}
