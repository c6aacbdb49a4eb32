use imgc::arithmetic::Arithmetic;
use imgc::kmeans::{
    assign_clusters, build_compressed_samples, check_preconditions, count_members,
    initialize_centers, nearest, update_centers, within_tolerance, CompressionResult, Config,
    KMeans, PreconditionError, DEFAULT_TOLERANCE,
};
use imgc::matrix::Matrix;
use imgc::sampling::select_rows;
use rand::rngs::StdRng;
use rand::SeedableRng;

struct Hardware;

impl Arithmetic for Hardware {
    fn difference(&self, a: u32, b: u32) -> u32 {
        (f32::from_bits(a) - f32::from_bits(b)).to_bits()
    }

    fn square(&self, a: u32) -> u32 {
        f32::from_bits(a).powi(2).to_bits()
    }

    fn sum(&self, a: u32, b: u32) -> u32 {
        (f32::from_bits(a) + f32::from_bits(b)).to_bits()
    }

    fn quotient(&self, a: u32, b: u32) -> u32 {
        (f32::from_bits(a) / f32::from_bits(b)).to_bits()
    }

    fn square_root(&self, a: u32) -> u32 {
        f32::from_bits(a).sqrt().to_bits()
    }

    fn from_count(&self, n: usize) -> u32 {
        (n as f32).to_bits()
    }

    fn widen(&self, a: u32) -> u64 {
        (f32::from_bits(a) as f64).to_bits()
    }

    fn wide_sum(&self, a: u64, b: u64) -> u64 {
        (f64::from_bits(a) + f64::from_bits(b)).to_bits()
    }
}

fn matrix_of(rows: &[[f32; 3]]) -> Matrix {
    let mut data: Vec<u32> = Vec::new();
    for row in rows {
        for value in row {
            data.push(value.to_bits());
        }
    }
    Matrix::from_vec(rows.len(), 3, data).unwrap()
}

fn row_of(m: &Matrix, i: usize) -> [f32; 3] {
    [
        f32::from_bits(m.get(i, 0)),
        f32::from_bits(m.get(i, 1)),
        f32::from_bits(m.get(i, 2)),
    ]
}

fn bits_of(values: &[f32]) -> Vec<u32> {
    values.iter().map(|v| v.to_bits()).collect()
}

fn two_groups() -> Matrix {
    matrix_of(&[
        [0.0, 0.0, 0.0],
        [1.0, 1.0, 1.0],
        [2.0, 0.0, 1.0],
        [250.0, 250.0, 250.0],
        [249.0, 251.0, 249.0],
        [252.0, 248.0, 251.0],
    ])
}

fn scattered(rows: usize) -> Matrix {
    let mut state: u32 = 12345;
    let mut data: Vec<u32> = Vec::new();
    for _ in 0..rows * 3 {
        state = state.wrapping_mul(1664525).wrapping_add(1013904223);
        data.push((((state >> 16) % 256) as f32).to_bits());
    }
    Matrix::from_vec(rows, 3, data).unwrap()
}

fn squared_gap(a: [f32; 3], b: [f32; 3]) -> f32 {
    let mut total: f32 = 0.0;
    for j in 0..3 {
        total += (a[j] - b[j]).powi(2);
    }
    total
}

fn independent_compactness(samples: &Matrix, result: &CompressionResult) -> f64 {
    let mut total: f64 = 0.0;
    for i in 0..samples.nrows() {
        total += squared_gap(row_of(samples, i), row_of(&result.compressed_samples, i)) as f64;
    }
    total
}

fn same_matrix(a: &Matrix, b: &Matrix) -> bool {
    if a.nrows() != b.nrows() || a.ncols() != b.ncols() {
        return false;
    }
    for i in 0..a.nrows() {
        for j in 0..a.ncols() {
            if a.get(i, j) != b.get(i, j) {
                return false;
            }
        }
    }
    true
}

#[test]
fn two_separated_groups_are_found() {
    let samples = two_groups();
    let initial = matrix_of(&[[0.0, 0.0, 0.0], [250.0, 250.0, 250.0]]);
    let engine = KMeans::new(Config::default());
    let result = engine.compress_from(&Hardware, &samples, initial).unwrap();
    assert_eq!(result.labels, vec![0, 0, 0, 1, 1, 1]);
    assert_eq!(row_of(&result.centers, 0), [1.0, 1.0 / 3.0, 2.0 / 3.0]);
    assert_eq!(row_of(&result.centers, 1), [751.0 / 3.0, 749.0 / 3.0, 250.0]);
    let compactness = f64::from_bits(result.compactness);
    assert!(compactness > 0.0 && compactness < 20.0);
}

#[test]
fn two_separated_groups_are_found_from_any_seed() {
    let samples = two_groups();
    let engine = KMeans::default();
    for seed in 0..40u64 {
        let result = engine.compress_seeded(&Hardware, &samples, 2, seed).unwrap();
        let near = result.labels[0];
        let far = result.labels[3];
        assert_ne!(near, far);
        assert_eq!(result.labels, vec![near, near, near, far, far, far]);
        let center = row_of(&result.centers, near);
        assert!((center[0] - 1.0).abs() < 1e-3);
        assert!((center[1] - 1.0 / 3.0).abs() < 1e-3);
        assert!((center[2] - 2.0 / 3.0).abs() < 1e-3);
        let center = row_of(&result.centers, far);
        assert!((center[0] - 751.0 / 3.0).abs() < 1e-3);
        assert!((center[1] - 749.0 / 3.0).abs() < 1e-3);
        assert!((center[2] - 250.0).abs() < 1e-3);
    }
}

#[test]
fn compactness_is_small_beside_the_spread_of_the_whole_set() {
    let samples = two_groups();
    let result = KMeans::default().compress(&Hardware, &samples, 2).unwrap();
    let mut mean = [0.0f32; 3];
    for i in 0..6 {
        let row = row_of(&samples, i);
        for j in 0..3 {
            mean[j] += row[j] / 6.0;
        }
    }
    let mut spread: f64 = 0.0;
    for i in 0..6 {
        spread += squared_gap(row_of(&samples, i), mean) as f64;
    }
    let compactness = f64::from_bits(result.compactness);
    assert!(compactness >= 0.0);
    assert!(compactness * 1000.0 < spread);
}

#[test]
fn identical_samples_give_zero_compactness() {
    let samples = matrix_of(&[[100.0, 100.0, 100.0]; 10]);
    let engine = KMeans::default();
    for seed in 0..10u64 {
        let result = engine.compress_seeded(&Hardware, &samples, 2, seed).unwrap();
        assert_eq!(result.labels, vec![0usize; 10]);
        assert_eq!(row_of(&result.centers, 0), [100.0, 100.0, 100.0]);
        assert_eq!(row_of(&result.centers, 1), [100.0, 100.0, 100.0]);
        assert_eq!(f64::from_bits(result.compactness), 0.0);
        for i in 0..10 {
            assert_eq!(row_of(&result.compressed_samples, i), [100.0, 100.0, 100.0]);
        }
    }
}

#[test]
fn a_center_without_members_stays_where_it_was() {
    let samples = matrix_of(&[[100.0, 100.0, 100.0]; 10]);
    let initial = matrix_of(&[[100.0, 100.0, 100.0], [7.0, 8.0, 9.0]]);
    let result = KMeans::default().compress_from(&Hardware, &samples, initial).unwrap();
    assert_eq!(result.labels, vec![0usize; 10]);
    assert_eq!(row_of(&result.centers, 0), [100.0, 100.0, 100.0]);
    assert_eq!(row_of(&result.centers, 1), [7.0, 8.0, 9.0]);
    assert_eq!(f64::from_bits(result.compactness), 0.0);
}

#[test]
fn update_moves_centers_to_the_mean_and_keeps_empty_ones() {
    let samples = matrix_of(&[[1.0, 2.0, 3.0], [3.0, 4.0, 8.0], [10.0, 10.0, 10.0]]);
    let previous = matrix_of(&[[0.0, 0.0, 0.0], [5.0, 6.0, 7.0], [9.0, 9.0, 9.0]]);
    let labels: Vec<usize> = vec![0, 0, 2];
    let centers = update_centers(&Hardware, &samples, &labels, &previous);
    assert_eq!(centers.nrows(), 3);
    assert_eq!(centers.ncols(), 3);
    assert_eq!(row_of(&centers, 0), [2.0, 3.0, 5.5]);
    assert_eq!(row_of(&centers, 1), [5.0, 6.0, 7.0]);
    assert_eq!(row_of(&centers, 2), [10.0, 10.0, 10.0]);
}

#[test]
fn assignment_picks_the_nearest_center() {
    let samples = two_groups();
    let centers = matrix_of(&[[200.0, 200.0, 200.0], [10.0, 10.0, 10.0]]);
    let mut labels: Vec<usize> = vec![7; 6];
    assign_clusters(&Hardware, &samples, &centers, &mut labels);
    assert_eq!(labels, vec![1, 1, 1, 0, 0, 0]);
}

#[test]
fn assignment_overwrites_what_the_labels_held() {
    let samples = matrix_of(&[[1.0, 1.0, 1.0], [5.0, 5.0, 5.0]]);
    let centers = matrix_of(&[[0.0, 0.0, 0.0], [2.0, 2.0, 2.0], [9.0, 9.0, 9.0]]);
    let mut labels: Vec<usize> = vec![2, 2];
    assign_clusters(&Hardware, &samples, &centers, &mut labels);
    assert_eq!(labels, vec![0, 1]);
    assign_clusters(&Hardware, &samples, &centers, &mut labels);
    assert_eq!(labels, vec![0, 1]);
    let mut others: Vec<usize> = vec![1, 0];
    assign_clusters(&Hardware, &samples, &centers, &mut others);
    assert_eq!(others, labels);
}

#[test]
fn assignment_breaks_ties_by_the_lowest_index() {
    let samples = matrix_of(&[[5.0, 5.0, 5.0], [0.0, 0.0, 0.0]]);
    let centers = matrix_of(&[[4.0, 5.0, 5.0], [6.0, 5.0, 5.0], [4.0, 5.0, 5.0]]);
    let mut labels: Vec<usize> = vec![9; 2];
    assign_clusters(&Hardware, &samples, &centers, &mut labels);
    assert_eq!(labels, vec![0, 0]);
}

#[test]
fn labels_name_centers_and_compressed_rows_are_centers() {
    let samples = scattered(200);
    let engine = KMeans::default();
    for clusters in [2usize, 3, 5, 16] {
        let result = engine.compress_seeded(&Hardware, &samples, clusters, 99).unwrap();
        assert_eq!(result.labels.len(), 200);
        assert_eq!(result.centers.nrows(), clusters);
        assert_eq!(result.centers.ncols(), 3);
        assert_eq!(result.compressed_samples.nrows(), 200);
        assert_eq!(result.compressed_samples.ncols(), 3);
        for i in 0..200 {
            assert!(result.labels[i] < clusters);
            for j in 0..3 {
                assert_eq!(
                    result.compressed_samples.get(i, j),
                    result.centers.get(result.labels[i], j)
                );
            }
        }
    }
}

#[test]
fn compactness_is_the_sum_of_the_squared_distances() {
    let samples = scattered(150);
    let engine = KMeans::default();
    for seed in 0..5u64 {
        let result = engine.compress_seeded(&Hardware, &samples, 4, seed).unwrap();
        let compactness = f64::from_bits(result.compactness);
        assert!(compactness >= 0.0);
        assert_eq!(compactness, independent_compactness(&samples, &result));
    }
}

#[test]
fn every_label_is_the_nearest_of_the_returned_centers() {
    let samples = scattered(120);
    let result = KMeans::default().compress_seeded(&Hardware, &samples, 6, 3).unwrap();
    for i in 0..120 {
        let mut best = 0usize;
        let mut best_gap = f32::MAX;
        for c in 0..6 {
            let gap = squared_gap(row_of(&samples, i), row_of(&result.centers, c));
            if gap < best_gap {
                best_gap = gap;
                best = c;
            }
        }
        assert_eq!(result.labels[i], best);
    }
}

#[test]
fn as_many_clusters_as_samples_makes_each_sample_a_center() {
    let samples = matrix_of(&[
        [0.0, 0.0, 0.0],
        [10.0, 20.0, 30.0],
        [200.0, 100.0, 50.0],
        [255.0, 255.0, 255.0],
        [17.0, 3.0, 99.0],
    ]);
    let engine = KMeans::default();
    for seed in 0..10u64 {
        let result = engine.compress_seeded(&Hardware, &samples, 5, seed).unwrap();
        assert_eq!(f64::from_bits(result.compactness), 0.0);
        let mut seen = vec![false; 5];
        for i in 0..5 {
            assert!(!seen[result.labels[i]]);
            seen[result.labels[i]] = true;
            assert_eq!(row_of(&result.centers, result.labels[i]), row_of(&samples, i));
            assert_eq!(row_of(&result.compressed_samples, i), row_of(&samples, i));
        }
    }
}

#[test]
fn the_same_start_gives_the_same_result() {
    let samples = scattered(90);
    let engine = KMeans::default();
    let first = engine
        .compress_from(&Hardware, &samples, matrix_of(&[[0.0, 0.0, 0.0], [128.0, 128.0, 128.0], [255.0, 255.0, 255.0]]))
        .unwrap();
    let second = engine
        .compress_from(&Hardware, &samples, matrix_of(&[[0.0, 0.0, 0.0], [128.0, 128.0, 128.0], [255.0, 255.0, 255.0]]))
        .unwrap();
    assert_eq!(first.labels, second.labels);
    assert!(same_matrix(&first.centers, &second.centers));
    assert!(same_matrix(&first.compressed_samples, &second.compressed_samples));
    assert_eq!(first.compactness, second.compactness);
}

#[test]
fn the_same_seed_gives_the_same_result() {
    let samples = scattered(90);
    let engine = KMeans::default();
    let first = engine.compress_seeded(&Hardware, &samples, 4, 2024).unwrap();
    let second = engine.compress_seeded(&Hardware, &samples, 4, 2024).unwrap();
    assert_eq!(first.labels, second.labels);
    assert!(same_matrix(&first.centers, &second.centers));
    assert_eq!(first.compactness, second.compactness);
}

#[test]
fn one_cluster_is_refused() {
    let samples = matrix_of(&[[0.0, 0.0, 0.0], [1.0, 1.0, 1.0]]);
    let r = KMeans::default().compress(&Hardware, &samples, 1);
    assert_eq!(r.err(), Some(PreconditionError::ClusterCount));
    let r = KMeans::default().compress(&Hardware, &samples, 0);
    assert_eq!(r.err(), Some(PreconditionError::ClusterCount));
}

#[test]
fn four_columns_are_refused() {
    let samples = Matrix::from_vec(3, 4, vec![0u32; 12]).unwrap();
    let r = KMeans::default().compress(&Hardware, &samples, 2);
    assert_eq!(r.err(), Some(PreconditionError::ColumnCount));
    let r = KMeans::default().compress(&Hardware, &samples, 1);
    assert_eq!(r.err(), Some(PreconditionError::ColumnCount));
}

#[test]
fn fewer_samples_than_clusters_are_refused() {
    let samples = matrix_of(&[[0.0, 0.0, 0.0], [1.0, 1.0, 1.0]]);
    let r = KMeans::default().compress(&Hardware, &samples, 3);
    assert_eq!(r.err(), Some(PreconditionError::SampleCount));
    assert!(KMeans::default().compress(&Hardware, &samples, 2).is_ok());
}

#[test]
fn starting_centers_of_the_wrong_shape_are_refused() {
    let samples = two_groups();
    let engine = KMeans::default();
    let wide = Matrix::from_vec(2, 4, vec![0u32; 8]).unwrap();
    assert_eq!(
        engine.compress_from(&Hardware, &samples, wide).err(),
        Some(PreconditionError::ColumnCount)
    );
    let single = matrix_of(&[[0.0, 0.0, 0.0]]);
    assert_eq!(
        engine.compress_from(&Hardware, &samples, single).err(),
        Some(PreconditionError::ClusterCount)
    );
    let many = matrix_of(&[[0.0, 0.0, 0.0]; 7]);
    assert_eq!(
        engine.compress_from(&Hardware, &samples, many).err(),
        Some(PreconditionError::SampleCount)
    );
}

#[test]
fn the_rules_are_tested_in_order() {
    assert_eq!(check_preconditions(0, 4, 0), Err(PreconditionError::ColumnCount));
    assert_eq!(check_preconditions(0, 3, 1), Err(PreconditionError::ClusterCount));
    assert_eq!(check_preconditions(1, 3, 2), Err(PreconditionError::SampleCount));
    assert_eq!(check_preconditions(2, 3, 2), Ok(()));
    assert_eq!(check_preconditions(1000, 3, 256), Ok(()));
}

#[test]
fn precondition_errors_have_their_texts() {
    assert_eq!(PreconditionError::ColumnCount.message(), "expected 3 columns (RGB)");
    assert_eq!(PreconditionError::ClusterCount.message(), "clusters must be >= 2");
    assert_eq!(PreconditionError::SampleCount.message(), "sample count must be >= clusters");
}

#[test]
fn the_default_configuration() {
    let config = Config::default();
    assert_eq!(config.max_iter, 100);
    assert_eq!(config.tolerance, DEFAULT_TOLERANCE);
    assert_eq!(f32::from_bits(config.tolerance), 1e-4f32);
}

#[test]
fn without_rounds_the_centers_are_the_given_ones() {
    let samples = two_groups();
    let engine = KMeans::new(Config { max_iter: 0, tolerance: DEFAULT_TOLERANCE });
    let initial = matrix_of(&[[3.0, 3.0, 3.0], [200.0, 200.0, 200.0]]);
    let result = engine.compress_from(&Hardware, &samples, initial).unwrap();
    assert_eq!(row_of(&result.centers, 0), [3.0, 3.0, 3.0]);
    assert_eq!(row_of(&result.centers, 1), [200.0, 200.0, 200.0]);
    assert_eq!(result.labels, vec![0, 0, 0, 1, 1, 1]);
}

#[test]
fn one_round_stops_before_the_centers_settle() {
    let samples = two_groups();
    let engine = KMeans::new(Config { max_iter: 1, tolerance: DEFAULT_TOLERANCE });
    let initial = matrix_of(&[[0.0, 0.0, 0.0], [1.0, 1.0, 1.0]]);
    let result = engine.compress_from(&Hardware, &samples, initial).unwrap();
    assert_eq!(row_of(&result.centers, 0), [0.0, 0.0, 0.0]);
    assert_eq!(row_of(&result.centers, 1), [150.8, 150.0, 150.4]);
    assert_eq!(result.labels, vec![0, 0, 0, 1, 1, 1]);
}

#[test]
fn nearest_takes_the_first_least_distance() {
    assert_eq!(nearest(&bits_of(&[3.0, 1.0, 2.0])), 1);
    assert_eq!(nearest(&bits_of(&[1.0, 1.0, 1.0])), 0);
    assert_eq!(nearest(&bits_of(&[2.0, 1.0, 1.0, 0.5, 0.5])), 3);
    assert_eq!(nearest(&bits_of(&[f32::NAN, 4.0, f32::NAN, 3.0])), 3);
    assert_eq!(nearest(&bits_of(&[f32::NAN, f32::NAN])), 0);
    assert_eq!(nearest(&bits_of(&[f32::INFINITY, f32::MAX, f32::INFINITY])), 0);
    assert_eq!(nearest(&bits_of(&[f32::INFINITY, f32::MAX, 1e38])), 2);
    assert_eq!(nearest(&bits_of(&[0.0, -0.0])), 0);
    assert_eq!(nearest(&bits_of(&[])), 0);
}

#[test]
fn nearest_agrees_with_a_scan_in_hardware() {
    let values = [0.0f32, 1.5, 2.5, f32::NAN, f32::INFINITY, f32::MAX, 1e-40, 7.0];
    for a in values {
        for b in values {
            for c in values {
                let distances = [a, b, c];
                let mut best = 0usize;
                let mut best_distance = f32::MAX;
                for (i, d) in distances.iter().enumerate() {
                    if *d < best_distance {
                        best_distance = *d;
                        best = i;
                    }
                }
                assert_eq!(nearest(&bits_of(&distances)), best);
            }
        }
    }
}

#[test]
fn tolerance_is_compared_with_the_largest_shift() {
    let tolerance = 1e-4f32.to_bits();
    assert!(within_tolerance(&bits_of(&[0.0, 0.0]), tolerance));
    assert!(within_tolerance(&bits_of(&[1e-4, 5e-5]), tolerance));
    assert!(!within_tolerance(&bits_of(&[0.0, 2e-4]), tolerance));
    assert!(within_tolerance(&bits_of(&[]), tolerance));
    assert!(within_tolerance(&bits_of(&[f32::NAN, 0.0]), tolerance));
    assert!(!within_tolerance(&bits_of(&[f32::INFINITY]), tolerance));
    assert!(!within_tolerance(&bits_of(&[0.0]), f32::NAN.to_bits()));
    assert!(!within_tolerance(&bits_of(&[0.0]), (-1.0f32).to_bits()));
    assert!(within_tolerance(&bits_of(&[0.0]), 0.0f32.to_bits()));
    assert!(within_tolerance(&bits_of(&[0.0]), (-0.0f32).to_bits()));
}

#[test]
fn tolerance_agrees_with_a_scan_in_hardware() {
    let values = [0.0f32, -0.0, 1e-5, 1e-4, 2e-4, 3.0, f32::NAN, f32::INFINITY, -1.0];
    for a in values {
        for b in values {
            for tolerance in values {
                let mut largest = 0f32;
                for shift in [a, b] {
                    if shift > largest {
                        largest = shift;
                    }
                }
                assert_eq!(
                    within_tolerance(&bits_of(&[a, b]), tolerance.to_bits()),
                    largest <= tolerance
                );
            }
        }
    }
}

#[test]
fn members_are_counted_for_each_cluster() {
    assert_eq!(count_members(&vec![0, 2, 2, 1, 2], 4), vec![1, 1, 3, 0]);
    assert_eq!(count_members(&vec![], 2), vec![0, 0]);
}

#[test]
fn compressed_samples_are_the_centers_of_the_labels() {
    let centers = matrix_of(&[[1.0, 2.0, 3.0], [4.0, 5.0, 6.0]]);
    let output = build_compressed_samples(&centers, &vec![1, 0, 1]);
    assert_eq!(output.nrows(), 3);
    assert_eq!(row_of(&output, 0), [4.0, 5.0, 6.0]);
    assert_eq!(row_of(&output, 1), [1.0, 2.0, 3.0]);
    assert_eq!(row_of(&output, 2), [4.0, 5.0, 6.0]);
}

#[test]
fn first_centers_are_different_rows_of_the_samples() {
    let samples = matrix_of(&[
        [0.0, 0.0, 0.0],
        [1.0, 1.0, 1.0],
        [2.0, 2.0, 2.0],
        [3.0, 3.0, 3.0],
        [4.0, 4.0, 4.0],
    ]);
    for seed in 0..30u64 {
        let mut source = StdRng::seed_from_u64(seed);
        let centers = initialize_centers(&samples, 3, &mut source);
        assert_eq!(centers.nrows(), 3);
        assert_eq!(centers.ncols(), 3);
        let mut seen = [false; 5];
        for c in 0..3 {
            let row = row_of(&centers, c);
            assert_eq!(row[0], row[1]);
            assert_eq!(row[1], row[2]);
            let index = row[0] as usize;
            assert!(index < 5);
            assert!(!seen[index]);
            seen[index] = true;
        }
    }
}

#[test]
fn selected_rows_are_different_and_in_range() {
    let mut orders: Vec<Vec<usize>> = Vec::new();
    for seed in 0..30u64 {
        let mut source = StdRng::seed_from_u64(seed);
        let picks = select_rows(10, 4, &mut source);
        assert_eq!(picks.len(), 4);
        for (i, p) in picks.iter().enumerate() {
            assert!(*p < 10);
            assert!(!picks[..i].contains(p));
        }
        orders.push(picks);
    }
    assert!(orders.iter().any(|picks| picks != &vec![0, 1, 2, 3]));
    assert!(orders.iter().any(|picks| picks != &orders[0]));
}

#[test]
fn selecting_all_rows_gives_each_of_them_once() {
    for seed in 0..10u64 {
        let mut source = StdRng::seed_from_u64(seed);
        let mut picks = select_rows(8, 8, &mut source);
        picks.sort();
        assert_eq!(picks, vec![0, 1, 2, 3, 4, 5, 6, 7]);
    }
    let mut source = StdRng::seed_from_u64(1);
    assert_eq!(select_rows(0, 0, &mut source), Vec::<usize>::new());
    assert_eq!(select_rows(5, 0, &mut source), Vec::<usize>::new());
}
