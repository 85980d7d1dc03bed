//! The dense LU factorisation.
use linger::direct::dense_lu::{exchanges_of, or_zeros, DenseLu};
use num_complex::Complex64;

fn on_axis(re: f64) -> Complex64 {
    Complex64::new(re, 0.0)
}

/// The product of a matrix that is stored column after column with a vector.
fn product(a: &[Complex64], n: usize, x: &[Complex64]) -> Vec<Complex64> {
    (0..n).map(|i| (0..n).map(|j| a[j * n + i] * x[j]).sum()).collect()
}

fn assert_solves(a: Vec<Complex64>, n: usize, b: &[Complex64]) -> Vec<Complex64> {
    let lu = DenseLu::factorize(a.clone(), n).unwrap();
    let x = lu.solve(b);
    let ax = product(&a, n, &x);
    for i in 0..n {
        assert!((ax[i] - b[i]).norm() < 1e-10, "row {i}: {} is not {}", ax[i], b[i]);
    }
    x
}

#[test]
fn small_identity() {
    let n = 3;
    let mut a = vec![Complex64::ZERO; n * n];
    for i in 0..n {
        a[i * n + i] = Complex64::new(1.0, 0.0);
    }
    let lu = DenseLu::factorize(a, n).unwrap();
    let b = vec![Complex64::new(2.0, 0.0); n];
    let x = lu.solve(&b);
    for i in 0..n {
        assert!((x[i].re - 2.0).abs() < 1e-10);
    }
}

#[test]
fn small_2x2() {
    let n = 2;
    let a = vec![
        Complex64::new(4.0, 0.0),
        Complex64::new(2.0, 0.0),
        Complex64::new(1.0, 0.0),
        Complex64::new(3.0, 0.0),
    ];
    let lu = DenseLu::factorize(a, n).unwrap();
    let b = vec![Complex64::new(5.0, 0.0), Complex64::new(10.0, 0.0)];
    let x = lu.solve(&b);
    assert!((x[0].re - 0.5).abs() < 1e-10);
    assert!((x[1].re - 3.0).abs() < 1e-10);
}

#[test]
fn factors_are_compact() {
    // [[4, 1], [2, 3]] = [[1, 0], [0.5, 1]] · [[4, 1], [0, 2.5]]
    let a = vec![on_axis(4.0), on_axis(2.0), on_axis(1.0), on_axis(3.0)];
    let lu = DenseLu::factorize(a, 2).unwrap();
    assert_eq!(lu.a, vec![on_axis(4.0), on_axis(0.5), on_axis(1.0), on_axis(2.5)]);
    assert_eq!(lu.ipiv, vec![0, 1]);
    assert_eq!(lu.n, 2);
}

#[test]
fn rows_are_exchanged() {
    // [[0, 2], [3, 0]]
    let a = vec![on_axis(0.0), on_axis(3.0), on_axis(2.0), on_axis(0.0)];
    let lu = DenseLu::factorize(a, 2).unwrap();
    assert_eq!(lu.ipiv, vec![1, 1]);
    let x = lu.solve(&[on_axis(4.0), on_axis(9.0)]);
    assert_eq!(x, vec![on_axis(3.0), on_axis(2.0)]);
}

#[test]
fn exchanges_of_a_cyclic_permutation() {
    // Row i has its only entry in column (i + 1) mod 3.
    let mut a = vec![Complex64::ZERO; 9];
    a[3] = on_axis(2.0);
    a[7] = on_axis(4.0);
    a[2] = on_axis(8.0);
    let lu = DenseLu::factorize(a, 3).unwrap();
    for k in 0..3 {
        assert!(lu.ipiv[k] >= k as i32 && lu.ipiv[k] < 3);
    }
    assert_eq!(lu.solve(&[on_axis(2.0), on_axis(4.0), on_axis(8.0)]), vec![on_axis(1.0); 3]);
    assert_eq!(
        lu.solve(&[on_axis(2.0), on_axis(0.0), on_axis(24.0)]),
        vec![on_axis(3.0), on_axis(1.0), on_axis(0.0)]
    );
}

#[test]
fn complex_system() {
    let n = 4;
    let a: Vec<Complex64> = (0..n * n)
        .map(|p| {
            let (j, i) = (p / n, p % n);
            Complex64::new(((3 * i + 5 * j) % 7) as f64 - 2.0, ((i * j) % 5) as f64)
        })
        .collect();
    let b: Vec<Complex64> = (0..n).map(|i| Complex64::new(i as f64, 1.0 - i as f64)).collect();
    assert_solves(a, n, &b);
}

#[test]
fn singular_matrix_gives_zero() {
    let a = vec![on_axis(1.0), on_axis(2.0), on_axis(2.0), on_axis(4.0)];
    let lu = DenseLu::factorize(a, 2).unwrap();
    assert_eq!(lu.solve(&[on_axis(1.0), on_axis(1.0)]), vec![Complex64::ZERO; 2]);
}

#[test]
fn one_by_one() {
    let x = assert_solves(vec![Complex64::new(0.0, 2.0)], 1, &[on_axis(4.0)]);
    assert!((x[0] - Complex64::new(0.0, -2.0)).norm() < 1e-15);
}

#[test]
fn empty_matrix_is_factorised() {
    let lu = DenseLu::factorize(Vec::new(), 0).unwrap();
    assert_eq!(lu.n, 0);
    assert!(lu.a.is_empty() && lu.ipiv.is_empty());
}

#[test]
fn row_orders_become_exchanges() {
    assert_eq!(exchanges_of(&vec![2, 0, 1]), vec![2, 2, 2]);
    assert_eq!(exchanges_of(&vec![0, 1, 2]), vec![0, 1, 2]);
    assert_eq!(exchanges_of(&vec![1, 0, 3, 2]), vec![1, 1, 3, 3]);
    let order = [3usize, 1, 4, 0, 2];
    let ipiv = exchanges_of(&order.to_vec());
    let mut rows: Vec<usize> = (0..5).collect();
    for k in 0..5 {
        rows.swap(k, ipiv[k] as usize);
    }
    assert_eq!(rows, order);
}

#[test]
fn right_hand_sides_follow_the_rows() {
    let lu = DenseLu { a: vec![Complex64::ZERO; 9], ipiv: vec![2, 2, 2], n: 3 };
    let b = [on_axis(1.0), on_axis(2.0), on_axis(3.0)];
    assert_eq!(lu.permute(&b), vec![on_axis(3.0), on_axis(1.0), on_axis(2.0)]);
}

#[test]
fn missing_solutions_are_zero() {
    assert_eq!(or_zeros(None, 2), vec![Complex64::ZERO; 2]);
    assert_eq!(or_zeros(Some(vec![on_axis(5.0)]), 1), vec![on_axis(5.0)]);
}
