use mnist_nn::fixed::{ONE, SCALE, VAL_MAX};
use mnist_nn::matrix::Matrix;
use mnist_nn::net::{
    back_prop, deriv_relu, forward_prop, get_accuracy, get_predictions, gradient_descent,
    make_predictions, one_hot, relu, softmax, update_params,
};
use mnist_nn::rng::{init_variables, rand_array1, rand_array2};
use mnist_nn::Error;

/// A real value as a fixed-point entry.
fn fx(x: f64) -> i64 {
    (x * SCALE as f64).round() as i64
}

/// A fixed-point entry as a real value.
fn fl(x: i64) -> f64 {
    x as f64 / SCALE as f64
}

fn mat(rows: &[&[f64]]) -> Matrix {
    let data: Vec<Vec<i64>> = rows
        .iter()
        .map(|r| r.iter().map(|&x| fx(x)).collect())
        .collect();
    Matrix::from_rows(data).unwrap()
}

fn entries(m: &Matrix) -> Vec<Vec<f64>> {
    let mut out = Vec::new();
    for i in 0..m.rows {
        let mut row = Vec::new();
        for j in 0..m.cols {
            row.push(fl(m.get(i, j)));
        }
        out.push(row);
    }
    out
}

fn assert_close(a: f64, b: f64) {
    assert!((a - b).abs() < 1e-6, "{} != {}", a, b);
}

#[test]
fn test_softmax() {
    let input = mat(&[&[1.0, 2.0, 3.0], &[2.0, 2.0, 2.0]]);
    let result = softmax(&input);
    for j in 0..result.cols {
        let mut sum = 0.0;
        for i in 0..result.rows {
            sum += fl(result.get(i, j));
        }
        assert!((sum - 1.0).abs() < 1e-6);
    }
}

#[test]
fn test_one_hot() {
    let input: Vec<usize> = vec![0, 1, 0, 2, 3, 4, 5, 6, 7, 8, 9];
    let result = one_hot(&input).unwrap();
    for c in 0..result.cols {
        let mut num_ones = 0;
        for r in 0..result.rows {
            if result.get(r, c) == ONE {
                num_ones += 1;
            }
        }
        assert_eq!(num_ones, 1);
        assert_eq!(result.get(input[c], c), ONE);
    }
}

#[test]
fn test_relu() {
    let input = mat(&[&[1.0, -2.0, 3.0], &[-4.0, 5.0, -6.0]]);
    let result = relu(&input);
    for i in 0..result.rows {
        for j in 0..result.cols {
            assert!(result.get(i, j) >= 0);
        }
    }
    assert_eq!(
        entries(&result),
        vec![vec![1.0, 0.0, 3.0], vec![0.0, 5.0, 0.0]]
    );
}

#[test]
fn test_deriv_relu() {
    let input = mat(&[&[1.0, -2.0, 3.0], &[-4.0, 5.0, -6.0]]);
    let result = deriv_relu(&input);
    for i in 0..result.rows {
        for j in 0..result.cols {
            let x = result.get(i, j);
            assert!(x == 0 || x == ONE);
        }
    }
    assert_eq!(
        entries(&result),
        vec![vec![1.0, 0.0, 1.0], vec![0.0, 1.0, 0.0]]
    );
}

#[test]
fn test_get_predictions() {
    let input = mat(&[
        &[0.2, 0.7, 0.1],
        &[0.3, 0.1, 0.2],
        &[0.5, 0.2, 0.7],
    ]);
    let result = get_predictions(&input);
    assert_eq!(result, vec![2, 0, 2]);
}

#[test]
fn test_get_accuracy() {
    let predictions: Vec<usize> = vec![0, 1, 2, 1, 0];
    let y: Vec<usize> = vec![0, 1, 2, 2, 0];
    let accuracy = get_accuracy(&predictions, &y).unwrap();
    assert_eq!(fl(accuracy), 4.0 / 5.0);
}

#[test]
fn test_forward_prop() {
    let w1 = mat(&[&[-10.0], &[2.0]]);
    let b1: Vec<i64> = vec![fx(5.0), fx(6.0)];
    let w2 = mat(&[&[1.0, 2.0], &[3.0, 4.0]]);
    let b2: Vec<i64> = vec![fx(5.0), fx(6.0)];
    let inp = mat(&[&[3.0, 4.0]]);

    let cache = forward_prop(&w1, &b1, &w2, &b2, &inp).unwrap();

    assert_eq!(
        entries(&cache.z1),
        vec![vec![-25.0, -35.0], vec![12.0, 14.0]]
    );
    assert_eq!(entries(&cache.a1), vec![vec![0.0, 0.0], vec![12.0, 14.0]]);
    assert_eq!(
        entries(&cache.z2),
        vec![vec![29.0, 33.0], vec![54.0, 62.0]]
    );
    let z2 = mat(&[&[29.0, 33.0], &[54.0, 62.0]]);
    let expected_a2 = softmax(&z2);
    assert_eq!(entries(&cache.a2), entries(&expected_a2));
}

#[test]
fn test_update_params() {
    let mut w1 = mat(&[&[1.0, 2.0, 3.0], &[2.0, 4.0, 6.0], &[3.0, 6.0, 9.0]]);
    let mut b1: Vec<i64> = vec![fx(1.0), fx(2.0), fx(3.0)];
    let mut w2 = mat(&[&[0.5, 1.0, 1.5]]);
    let mut b2: Vec<i64> = vec![fx(0.5)];
    let dw1 = mat(&[&[0.1, 0.2, 0.3], &[0.4, 0.5, 0.6], &[0.7, 0.8, 0.9]]);
    let db1: Vec<i64> = vec![fx(0.6), fx(0.6), fx(0.6)];
    let dw2 = mat(&[&[0.1, 0.2, 0.3]]);
    let db2: Vec<i64> = vec![fx(0.1)];
    let alpha = fx(1.0);

    update_params(&mut w1, &mut b1, &mut w2, &mut b2, &dw1, &db1, &dw2, &db2, alpha).unwrap();

    assert_eq!(
        entries(&w1),
        vec![
            vec![0.9, 1.8, 2.7],
            vec![1.6, 3.5, 5.4],
            vec![2.3, 5.2, 8.1]
        ]
    );
    assert_eq!(b1, vec![fx(0.4), fx(1.4), fx(2.4)]);
    assert_eq!(entries(&w2), vec![vec![0.4, 0.8, 1.2]]);
    assert_eq!(b2, vec![fx(0.4)]);
}

#[test]
fn softmax_entries_lie_in_unit_interval() {
    let input = mat(&[
        &[-20.0, 0.0, 314.0],
        &[20.0, 0.0, -159.0],
        &[0.5, 0.0, 26.0],
    ]);
    let result = softmax(&input);
    for i in 0..result.rows {
        for j in 0..result.cols {
            let v = fl(result.get(i, j));
            assert!(0.0 <= v && v <= 1.0);
        }
    }
    for j in 0..result.cols {
        let mut sum = 0.0;
        for i in 0..result.rows {
            sum += fl(result.get(i, j));
        }
        assert!((sum - 1.0).abs() < 1e-6);
    }
}

#[test]
fn softmax_matches_floating_point_softmax() {
    let values: Vec<Vec<f64>> = vec![
        vec![1.0, -3.5, 0.0, 29.0],
        vec![2.0, 0.25, 0.0, 54.0],
        vec![-1.0, 7.125, 0.0, 33.5],
    ];
    let rows: Vec<&[f64]> = values.iter().map(|r| r.as_slice()).collect();
    let input = mat(&rows);
    let result = softmax(&input);
    for j in 0..input.cols {
        let mx = (0..input.rows).map(|i| values[i][j]).fold(f64::MIN, f64::max);
        let total: f64 = (0..input.rows).map(|i| (values[i][j] - mx).exp()).sum();
        for i in 0..input.rows {
            let expected = (values[i][j] - mx).exp() / total;
            assert!(
                (fl(result.get(i, j)) - expected).abs() < 1e-6,
                "entry ({}, {}): {} vs {}",
                i,
                j,
                fl(result.get(i, j)),
                expected
            );
        }
    }
}

#[test]
fn one_hot_rejects_label_out_of_range() {
    let input: Vec<usize> = vec![3, 10];
    assert_eq!(one_hot(&input).unwrap_err(), Error::InvalidLabel);
}

#[test]
fn accuracy_rejects_length_mismatch() {
    let predictions: Vec<usize> = vec![0, 1];
    let y: Vec<usize> = vec![0, 1, 2];
    assert_eq!(
        get_accuracy(&predictions, &y).unwrap_err(),
        Error::ShapeMismatch
    );
}

#[test]
fn accuracy_rejects_empty_vectors() {
    let predictions: Vec<usize> = vec![];
    let y: Vec<usize> = vec![];
    assert_eq!(
        get_accuracy(&predictions, &y).unwrap_err(),
        Error::NumericDegeneracy
    );
}

#[test]
fn forward_prop_rejects_shape_mismatch() {
    let w1 = mat(&[&[1.0, 2.0], &[3.0, 4.0]]);
    let b1: Vec<i64> = vec![0, 0];
    let w2 = mat(&[&[1.0, 1.0]]);
    let b2: Vec<i64> = vec![0];
    let inp = mat(&[&[1.0]]);
    assert_eq!(
        forward_prop(&w1, &b1, &w2, &b2, &inp).unwrap_err(),
        Error::ShapeMismatch
    );
}

#[test]
fn forward_prop_reports_numeric_degeneracy() {
    let big = Matrix::from_rows(vec![vec![VAL_MAX]]).unwrap();
    let b1: Vec<i64> = vec![0];
    let w2 = Matrix::from_rows(vec![vec![ONE]]).unwrap();
    let b2: Vec<i64> = vec![0];
    let inp = Matrix::from_rows(vec![vec![VAL_MAX]]).unwrap();
    assert_eq!(
        forward_prop(&big, &b1, &w2, &b2, &inp).unwrap_err(),
        Error::NumericDegeneracy
    );
}

#[test]
fn from_rows_rejects_ragged_and_oversized_entries() {
    assert_eq!(
        Matrix::from_rows(vec![vec![1, 2], vec![3]]).unwrap_err(),
        Error::ShapeMismatch
    );
    assert_eq!(
        Matrix::from_rows(vec![vec![VAL_MAX + 1]]).unwrap_err(),
        Error::NumericDegeneracy
    );
}

#[test]
fn back_prop_matches_hand_computed_gradients() {
    // One sample, one input feature, one hidden unit: all the transposes
    // and sums collapse to scalars that can be checked by hand.
    // z1 = 2*1 + 0 = 2, a1 = 2, z2 = [0.5*2, 1*2] = [1, 2], softmax column.
    let w1 = mat(&[&[2.0]]);
    let b1: Vec<i64> = vec![0];
    let w2 = mat(&[
        &[0.5],
        &[1.0],
        &[0.0],
        &[0.0],
        &[0.0],
        &[0.0],
        &[0.0],
        &[0.0],
        &[0.0],
        &[0.0],
    ]);
    let b2: Vec<i64> = vec![0; 10];
    let x = mat(&[&[1.0]]);
    let y: Vec<usize> = vec![1];
    let cache = forward_prop(&w1, &b1, &w2, &b2, &x).unwrap();
    let g = back_prop(&cache.z1, &cache.a1, &cache.a2, &w2, &x, &y).unwrap();
    // dZ2 = A2 - onehot(y); m = 1.
    let a2 = entries(&cache.a2);
    let mut dz2 = Vec::new();
    for r in 0..10 {
        dz2.push(a2[r][0] - if r == 1 { 1.0 } else { 0.0 });
    }
    // dW2 = dZ2 . A1^t, db2 = rowsum(dZ2).
    for r in 0..10 {
        assert_close(entries(&g.dw2)[r][0], dz2[r] * 2.0);
    }
    // dZ1 = (W2^t . dZ2) * relu'(Z1); z1 = 2 > 0 so the derivative is 1.
    let dz1 = 0.5 * dz2[0] + 1.0 * dz2[1];
    assert_close(entries(&g.dw1)[0][0], dz1);
    assert_close(fl(g.db1[0]), dz1);
}

#[test]
fn random_arrays_are_seeded_and_in_range() {
    let a = rand_array2(7, 3, 4);
    let b = rand_array2(7, 3, 4);
    let c = rand_array2(8, 3, 4);
    assert_eq!(entries(&a), entries(&b));
    assert_ne!(entries(&a), entries(&c));
    for i in 0..a.rows {
        for j in 0..a.cols {
            let v = fl(a.get(i, j));
            assert!(-0.5 <= v && v < 0.5);
        }
    }
    let v1 = rand_array1(7, 5);
    let v2 = rand_array1(7, 5);
    assert_eq!(v1, v2);
    assert_eq!(v1.len(), 5);
    for k in 0..5 {
        assert!(-(ONE / 2) <= v1[k] && v1[k] < ONE / 2);
    }
}

#[test]
fn init_variables_is_reproducible() {
    let p = init_variables(42, 3, 4);
    let q = init_variables(42, 3, 4);
    assert_eq!(entries(&p.w1), entries(&q.w1));
    assert_eq!(p.b1, q.b1);
    assert_eq!(entries(&p.w2), entries(&q.w2));
    assert_eq!(p.b2, q.b2);
    assert_eq!(p.w1.rows, 4);
    assert_eq!(p.w1.cols, 3);
    assert_eq!(p.w2.rows, 10);
    assert_eq!(p.w2.cols, 4);
    assert_eq!(p.b1.len(), 4);
    assert_eq!(p.b2.len(), 10);
}

fn toy_data() -> (Matrix, Vec<usize>) {
    let x = mat(&[&[0.05, 0.1, 0.15, 0.85, 0.9, 0.95]]);
    let y: Vec<usize> = vec![0, 0, 0, 1, 1, 1];
    (x, y)
}

#[test]
fn training_is_deterministic_for_a_fixed_seed() {
    let (x, y) = toy_data();
    let (p1, log1) = gradient_descent(&x, &y, 50, fx(0.5), 8, 123, 10).unwrap();
    let (p2, log2) = gradient_descent(&x, &y, 50, fx(0.5), 8, 123, 10).unwrap();
    assert_eq!(entries(&p1.w1), entries(&p2.w1));
    assert_eq!(p1.b1, p2.b1);
    assert_eq!(entries(&p1.w2), entries(&p2.w2));
    assert_eq!(p1.b2, p2.b2);
    assert_eq!(log1, log2);
    assert_eq!(log1.len(), 5);
}

#[test]
fn training_improves_accuracy_on_separable_data() {
    let (x, y) = toy_data();
    let seed = 123;
    let (p0, _) = gradient_descent(&x, &y, 0, fx(0.5), 8, seed, 0).unwrap();
    let (pt, _) = gradient_descent(&x, &y, 500, fx(0.5), 8, seed, 0).unwrap();
    let before = get_accuracy(&make_predictions(&p0.w1, &p0.b1, &p0.w2, &p0.b2, &x).unwrap(), &y)
        .unwrap();
    let after = get_accuracy(&make_predictions(&pt.w1, &pt.b1, &pt.w2, &pt.b2, &x).unwrap(), &y)
        .unwrap();
    assert!(after > before, "accuracy {} -> {}", fl(before), fl(after));
    assert!(fl(after) > 0.8);
}

#[test]
fn gradient_descent_rejects_bad_inputs() {
    let (x, _) = toy_data();
    let wrong_len: Vec<usize> = vec![0, 1];
    assert_eq!(
        gradient_descent(&x, &wrong_len, 1, fx(0.5), 8, 1, 0).unwrap_err(),
        Error::ShapeMismatch
    );
    let bad_labels: Vec<usize> = vec![0, 0, 0, 1, 1, 10];
    assert_eq!(
        gradient_descent(&x, &bad_labels, 1, fx(0.5), 8, 1, 0).unwrap_err(),
        Error::InvalidLabel
    );
}
