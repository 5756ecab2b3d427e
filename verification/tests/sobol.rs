use pirx::sobol::{init_direction_numbers, rightmost_zero_bit, saltelli_states, sobol_states, SobolInputError, MAX_DIM};

fn sobol_sequence(n: usize, dim: usize) -> Result<Vec<Vec<f64>>, SobolInputError> {
    let norm = 1.0 / (1u64 << 32) as f64;
    sobol_states(n, dim).map(|pts| {
        pts.into_iter()
            .map(|p| p.into_iter().map(|s| f64::from(s) * norm).collect())
            .collect()
    })
}

#[test]
fn sobol_seq_length() {
    for &n in &[1, 2, 4, 8, 16, 64, 256, 1024] {
        let pts = sobol_sequence(n, 3).unwrap();
        assert_eq!(pts.len(), n, "expected {n} points");
    }
}

#[test]
fn sobol_seq_dimension() {
    for dim in 1..=MAX_DIM {
        let pts = sobol_sequence(16, dim).unwrap();
        for (i, pt) in pts.iter().enumerate() {
            assert_eq!(pt.len(), dim, "point {i} should have {dim} dimensions, got {}", pt.len());
        }
    }
}

#[test]
fn sobol_seq_unit_range() {
    let pts = sobol_sequence(4096, MAX_DIM).unwrap();
    for (i, pt) in pts.iter().enumerate() {
        for (j, &val) in pt.iter().enumerate() {
            assert!((0.0..1.0).contains(&val), "point[{i}][{j}] = {val} not in [0, 1)");
        }
    }
}

#[test]
fn sobol_seq_deterministic() {
    let a = sobol_sequence(256, 5).unwrap();
    let b = sobol_sequence(256, 5).unwrap();
    assert_eq!(a, b, "same N, dim must produce identical output");
}

#[test]
fn sobol_seq_first_point_origin() {
    let pts = sobol_sequence(64, 10).unwrap();
    for (j, &val) in pts[0].iter().enumerate() {
        assert!(val.abs() < f64::EPSILON, "first point dim {j} should be 0, got {val}");
    }
}

#[test]
fn sobol_seq_uniformity() {
    let n = 4096;
    let dim = 5;
    let pts = sobol_sequence(n, dim).unwrap();
    let bins = 10;
    let expected_per_bin = n as f64 / bins as f64;
    for d in 0..dim {
        let mut counts = vec![0usize; bins];
        for pt in &pts {
            let bin = (pt[d] * bins as f64).floor() as usize;
            let bin = bin.min(bins - 1);
            counts[bin] += 1;
        }
        let chi_sq: f64 = counts
            .iter()
            .map(|&c| {
                let diff = c as f64 - expected_per_bin;
                diff * diff / expected_per_bin
            })
            .sum();
        assert!(chi_sq < 21.67, "dim {d} fails uniformity: chi_sq={chi_sq:.2} (threshold 21.67), counts={counts:?}");
    }
}

#[test]
fn sobol_seq_power_of_two_only() {
    for &bad_n in &[0, 3, 5, 6, 7, 9, 10, 15, 17, 100, 1000] {
        let result = sobol_sequence(bad_n, 3);
        assert!(matches!(result, Err(SobolInputError::NotPowerOfTwo(_))), "n={bad_n} should fail with NotPowerOfTwo, got {result:?}");
    }
}

#[test]
fn sobol_seq_dim_zero_rejected() {
    let result = sobol_sequence(16, 0);
    assert!(matches!(result, Err(SobolInputError::DimensionMismatch { .. })), "dim=0 should fail");
}

#[test]
fn sobol_seq_dim_too_large_rejected() {
    let result = sobol_sequence(16, MAX_DIM + 1);
    assert!(matches!(result, Err(SobolInputError::DimensionMismatch { .. })), "dim={} should fail", MAX_DIM + 1);
}

#[test]
fn sobol_seq_no_duplicate_points() {
    let pts = sobol_sequence(256, 4).unwrap();
    for i in 0..pts.len() {
        for j in (i + 1)..pts.len() {
            assert_ne!(pts[i], pts[j], "points {i} and {j} are duplicates");
        }
    }
}

#[test]
fn sobol_seq_n_1_single_origin() {
    let pts = sobol_sequence(1, 5).unwrap();
    assert_eq!(pts.len(), 1);
    assert!(pts[0].iter().all(|&v| v.abs() < f64::EPSILON));
}

#[test]
fn max_dim_matches_table() {
    assert_eq!(MAX_DIM, 30);
}

#[test]
fn first_points_of_two_dimensions() {
    let pts = sobol_states(4, 2).unwrap();
    assert_eq!(pts[1], vec![0x8000_0000, 0x8000_0000]);
    assert_eq!(pts[2], vec![0xC000_0000, 0x4000_0000]);
    assert_eq!(pts[3], vec![0x4000_0000, 0xC000_0000]);
}

#[test]
fn rightmost_zero_bit_values() {
    assert_eq!(rightmost_zero_bit(0), 0);
    assert_eq!(rightmost_zero_bit(1), 1);
    assert_eq!(rightmost_zero_bit(2), 0);
    assert_eq!(rightmost_zero_bit(3), 2);
    assert_eq!(rightmost_zero_bit(7), 3);
    assert_eq!(rightmost_zero_bit(usize::MAX), usize::BITS as usize);
}

#[test]
fn direction_numbers_first_dimension_are_powers_of_two() {
    let v = init_direction_numbers(3);
    assert_eq!(v.len(), 3);
    for i in 0..32 {
        assert_eq!(v[0][i], 1u32 << (31 - i));
    }
    assert_eq!(v[1][0], 1u32 << 31);
    assert_eq!(v[2][0], 1u32 << 31);
    assert_eq!(v[2][1], 1u32 << 30);
}

#[test]
fn matrices_dimensions() {
    let n = 64;
    let dim = 5;
    let (a, b, ab) = saltelli_states(n, dim).unwrap();
    assert_eq!(a.len(), n, "A should have N rows");
    assert_eq!(b.len(), n, "B should have N rows");
    for (i, row) in a.iter().enumerate() {
        assert_eq!(row.len(), dim, "A row {i} should have P columns");
    }
    for (i, row) in b.iter().enumerate() {
        assert_eq!(row.len(), dim, "B row {i} should have P columns");
    }
    assert_eq!(ab.len(), dim, "AB should have P matrices");
    for (i, ab_i) in ab.iter().enumerate() {
        assert_eq!(ab_i.len(), n, "AB_{i} should have N rows");
        for (j, row) in ab_i.iter().enumerate() {
            assert_eq!(row.len(), dim, "AB_{i} row {j} should have P columns");
        }
    }
}

#[test]
fn matrices_ab_column_replacement() {
    let n = 128;
    let dim = 4;
    let (a, b, ab) = saltelli_states(n, dim).unwrap();
    for i in 0..dim {
        for j in 0..n {
            assert_eq!(ab[i][j][i], b[j][i], "AB_{i} row {j} column {i} should match B");
            for k in 0..dim {
                if k != i {
                    assert_eq!(ab[i][j][k], a[j][k], "AB_{i} row {j} column {k} should match A");
                }
            }
        }
    }
}

#[test]
fn matrices_split_the_sequence() {
    let (a, b, _) = saltelli_states(4, 2).unwrap();
    let raw = sobol_states(8, 2).unwrap();
    assert_eq!(a, raw[..4].to_vec());
    assert_eq!(b, raw[4..].to_vec());
    assert!(matches!(saltelli_states(3, 2), Err(SobolInputError::NotPowerOfTwo(6))));
    assert!(matches!(saltelli_states(4, 0), Err(SobolInputError::DimensionMismatch { expected: 30, actual: 0 })));
}

#[test]
fn direction_numbers_for_dimension_zero_hold_the_first_row() {
    let v = init_direction_numbers(0);
    assert_eq!(v.len(), 1);
    assert_eq!(v[0].len(), 32);
    assert_eq!(v[0][0], 1u32 << 31);
    assert_eq!(v[0][31], 1);
}
