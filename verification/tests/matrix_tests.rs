use trust_feed::matrix::Matrix;
use trust_feed::matrix::Vector;
use trust_feed::SCALE;

#[test]
fn zeros_has_requested_shape() {
    let m = Matrix::zeros((3, 2));
    assert_eq!(m.num_rows(), 2);
    assert_eq!(m.num_cols(), 3);
    for i in 0..2 {
        for j in 0..3 {
            assert_eq!(m.entry(i, j), 0);
        }
    }
}

#[test]
fn transpose_mirrors_entries() {
    let m = Matrix::new(vec![vec![1, 2, 3], vec![4, 5, 6]]);
    let t = m.transpose();
    assert_eq!(t.num_rows(), 3);
    assert_eq!(t.num_cols(), 2);
    assert_eq!(t.entry(0, 0), 1);
    assert_eq!(t.entry(0, 1), 4);
    assert_eq!(t.entry(1, 0), 2);
    assert_eq!(t.entry(1, 1), 5);
    assert_eq!(t.entry(2, 0), 3);
    assert_eq!(t.entry(2, 1), 6);
}

#[test]
fn mul_add_is_fixed_point_matrix_vector_product() {
    // rows: [1.0, 0], [0.5, 0.5] times [0.2, 0.4]
    let m = Matrix::new(vec![vec![SCALE, 0], vec![SCALE / 2, SCALE / 2]]);
    let b = vec![SCALE / 5, 2 * SCALE / 5];
    let r = m.mul_add(&b);
    assert_eq!(r, vec![SCALE / 5, 3 * SCALE / 10]);
}

#[test]
fn vector_mul_scales_every_entry() {
    let v = Vector::new(vec![SCALE, SCALE / 2, 0]);
    let half = v.mul(SCALE / 2);
    assert_eq!(half.data(), vec![SCALE / 2, SCALE / 4, 0]);
}

#[test]
fn vector_add_is_entrywise() {
    let a = Vector::new(vec![1, 2, 3]);
    let b = Vector::new(vec![10, 20, 30]);
    assert_eq!(a.add(b).data(), vec![11, 22, 33]);
}

#[test]
fn vector_new_and_data_round_trip() {
    let v = Vector::new(vec![7, 8]);
    assert_eq!(v.data(), vec![7, 8]);
}
