use petal::metric::DistanceMetric;
use petal::neighbors::Error;
use petal::BallTree;

/// Euclidean distance over `f64` coordinates carried as bit patterns.
struct Euclidean;

impl DistanceMetric for Euclidean {
    fn distance(&self, p: &Vec<u64>, q: &Vec<u64>) -> u64 {
        let mut s = 0.0f64;
        for i in 0..p.len() {
            let d = f64::from_bits(p[i]) - f64::from_bits(q[i]);
            s += d * d;
        }
        s.sqrt().to_bits()
    }

    fn center(&self, pts: &Vec<Vec<u64>>) -> Vec<u64> {
        let d = pts[0].len();
        let mut acc = vec![0.0f64; d];
        for p in pts.iter() {
            for c in 0..d {
                acc[c] += f64::from_bits(p[c]);
            }
        }
        let n = pts.len() as f64;
        acc.iter().map(|x| (x / n).to_bits()).collect()
    }
}

fn rows(points: &[Vec<f64>]) -> Vec<Vec<u64>> {
    points
        .iter()
        .map(|row| row.iter().map(|x| x.to_bits()).collect())
        .collect()
}

fn row(point: &[f64]) -> Vec<u64> {
    point.iter().map(|x| x.to_bits()).collect()
}

fn unit_square() -> Vec<Vec<u64>> {
    rows(&[vec![0.0, 0.0], vec![1.0, 0.0], vec![0.0, 1.0], vec![1.0, 1.0]])
}

fn expect_err(r: Result<BallTree<Euclidean>, Error>) -> Error {
    match r {
        Ok(_) => panic!("expected an error"),
        Err(e) => e,
    }
}

fn euclid(p: &[f64], q: &[f64]) -> f64 {
    let mut s = 0.0f64;
    for i in 0..p.len() {
        let d = p[i] - q[i];
        s += d * d;
    }
    s.sqrt()
}

#[test]
fn test_ball_tree_construction() {
    let tree = BallTree::new(unit_square(), Euclidean).unwrap();
    assert_eq!(tree.n_samples(), 4);
}

#[test]
fn test_ball_tree_query_nearest() {
    let tree = BallTree::new(unit_square(), Euclidean).unwrap();
    let query = row(&[0.1, 0.1]);
    let (idx, dist) = tree.query_nearest(&query).unwrap();
    assert_eq!(idx, 0);
    assert!((f64::from_bits(dist) - 0.1_f64.hypot(0.1)).abs() < 1e-10);
}

#[test]
fn test_ball_tree_query_k_nearest() {
    let tree = BallTree::new(unit_square(), Euclidean).unwrap();
    let query = row(&[0.0, 0.0]);
    let (indices, distances) = tree.query(&query, 2).unwrap();
    assert_eq!(indices.len(), 2);
    assert_eq!(distances.len(), 2);
    assert_eq!(indices[0], 0); // Nearest is the origin itself
    assert!((f64::from_bits(distances[0]) - 0.0_f64).abs() < 1e-10);
}

#[test]
fn test_ball_tree_query_radius() {
    let tree = BallTree::new(unit_square(), Euclidean).unwrap();
    let query = row(&[0.0, 0.0]);
    let indices = tree.query_radius(&query, 1.1_f64.to_bits()).unwrap();
    // Should include the origin, (1,0), and (0,1), but not (1,1) which is at distance sqrt(2)
    assert_eq!(indices.len(), 3);
}

#[test]
fn unit_square_scenario_exact() {
    let tree = BallTree::new(unit_square(), Euclidean).unwrap();

    let (idx, dist) = tree.query_nearest(&row(&[0.1, 0.1])).unwrap();
    assert_eq!(idx, 0);
    assert!((f64::from_bits(dist) - 0.02_f64.sqrt()).abs() < 1e-10);

    let (indices, distances) = tree.query(&row(&[0.0, 0.0]), 2).unwrap();
    assert_eq!(indices[0], 0);
    assert_eq!(f64::from_bits(distances[0]), 0.0);
    assert!(f64::from_bits(distances[0]) <= f64::from_bits(distances[1]));

    let within = tree.query_radius(&row(&[0.0, 0.0]), 1.1_f64.to_bits()).unwrap();
    assert_eq!(within, vec![0, 1, 2]);
}

#[test]
fn repeated_queries_are_bit_identical() {
    let tree = BallTree::new(unit_square(), Euclidean).unwrap();
    let q = row(&[0.3, 0.4]);

    let a = tree.query_nearest(&q).unwrap();
    let b = tree.query_nearest(&q).unwrap();
    assert_eq!(a, b);

    let x = tree.query(&q, 3).unwrap();
    let y = tree.query(&q, 3).unwrap();
    assert_eq!(x.0, y.0);
    assert_eq!(x.1, y.1);

    let r1 = tree.query_radius(&q, 1.0_f64.to_bits()).unwrap();
    let r2 = tree.query_radius(&q, 1.0_f64.to_bits()).unwrap();
    assert_eq!(r1, r2);
}

#[test]
fn empty_input_fails_single_point_is_one_node() {
    let empty: Vec<Vec<u64>> = Vec::new();
    assert_eq!(expect_err(BallTree::new(empty, Euclidean)), Error::EmptyInput);

    let tree = BallTree::new(rows(&[vec![2.5, -1.0, 3.0]]), Euclidean).unwrap();
    assert_eq!(tree.n_samples(), 1);
    assert_eq!(tree.n_nodes(), 1);
}

#[test]
fn singleton_leaves_give_full_arena() {
    let tree = BallTree::new(unit_square(), Euclidean).unwrap();
    // with a leaf capacity of one, a tree over n points has 2n - 1 nodes
    assert_eq!(tree.n_nodes(), 7);
}

#[test]
fn construction_validation_errors() {
    let ragged = vec![vec![0.0_f64.to_bits(), 1.0_f64.to_bits()], vec![2.0_f64.to_bits()]];
    assert_eq!(expect_err(BallTree::new(ragged, Euclidean)), Error::InconsistentRows);

    let with_nan = rows(&[vec![0.0, 0.0], vec![f64::NAN, 1.0]]);
    assert_eq!(expect_err(BallTree::new(with_nan, Euclidean)), Error::NonFiniteCoordinate);

    let with_inf = rows(&[vec![0.0, 0.0], vec![f64::INFINITY, 1.0]]);
    assert_eq!(expect_err(BallTree::new(with_inf, Euclidean)), Error::NonFiniteCoordinate);
}

#[test]
fn query_argument_errors() {
    let tree = BallTree::new(unit_square(), Euclidean).unwrap();
    let short = row(&[0.5]);
    assert_eq!(tree.query_nearest(&short).unwrap_err(), Error::DimensionMismatch);
    assert_eq!(tree.query(&short, 2).unwrap_err(), Error::DimensionMismatch);
    assert_eq!(
        tree.query_radius(&short, 1.0_f64.to_bits()).unwrap_err(),
        Error::DimensionMismatch
    );

    let q = row(&[0.5, 0.5]);
    assert_eq!(tree.query(&q, 0).unwrap_err(), Error::InvalidArgument);
    assert_eq!(tree.query(&q, 5).unwrap_err(), Error::InvalidArgument);
    assert_eq!(
        tree.query_radius(&q, (-1.0_f64).to_bits()).unwrap_err(),
        Error::InvalidArgument
    );
    assert_eq!(
        tree.query_radius(&q, f64::NAN.to_bits()).unwrap_err(),
        Error::InvalidArgument
    );
}

#[test]
fn negative_zero_radius_counts_as_zero() {
    let tree = BallTree::new(unit_square(), Euclidean).unwrap();
    let q = row(&[1.0, 0.0]);
    let at_zero = tree.query_radius(&q, (-0.0_f64).to_bits()).unwrap();
    assert_eq!(at_zero, vec![1]);
    let at_pos_zero = tree.query_radius(&q, 0.0_f64.to_bits()).unwrap();
    assert_eq!(at_zero, at_pos_zero);
}

#[test]
fn infinite_radius_returns_everything() {
    let tree = BallTree::new(unit_square(), Euclidean).unwrap();
    let all = tree.query_radius(&row(&[5.0, -3.0]), f64::INFINITY.to_bits()).unwrap();
    assert_eq!(all, vec![0, 1, 2, 3]);
}

#[test]
fn ties_resolve_to_smallest_index() {
    // (1,0) and (0,1) are both at the same distance from (0.5, 0.5)
    let tree = BallTree::new(unit_square(), Euclidean).unwrap();
    let q = row(&[0.5, 0.5]);
    let (idx, _) = tree.query_nearest(&q).unwrap();
    assert_eq!(idx, 0);
    let (indices, distances) = tree.query(&q, 4).unwrap();
    assert_eq!(indices, vec![0, 1, 2, 3]);
    assert_eq!(f64::from_bits(distances[0]), f64::from_bits(distances[3]));
}

#[test]
fn matches_brute_force_on_a_larger_set() {
    let data: Vec<Vec<f64>> = vec![
        vec![0.31, -2.4, 1.0],
        vec![5.2, 0.01, -3.3],
        vec![-1.5, 2.25, 0.75],
        vec![0.3, -2.4, 1.01],
        vec![4.9, 0.0, -3.0],
        vec![-1.5, 2.25, 0.75],
        vec![2.0, 2.0, 2.0],
        vec![-7.25, 0.5, 12.0],
        vec![0.0, 0.0, 0.0],
        vec![1e-9, -1e9, 3.5],
        vec![8.75, 8.75, -8.75],
        vec![0.31, -2.4, 1.0],
    ];
    let tree = BallTree::new(rows(&data), Euclidean).unwrap();
    let q = vec![0.25, -2.0, 1.1];
    let qb = row(&q);

    // brute force in plain floating point, ties to the smallest index
    let mut pairs: Vec<(u64, usize)> = data
        .iter()
        .enumerate()
        .map(|(i, p)| (euclid(&q, p).to_bits(), i))
        .collect();
    pairs.sort();

    let (bi, bd) = tree.query_nearest(&qb).unwrap();
    assert_eq!((pairs[0].1, pairs[0].0), (bi, bd));

    let k = 5;
    let (indices, distances) = tree.query(&qb, k).unwrap();
    for t in 0..k {
        assert_eq!(indices[t], pairs[t].1);
        assert_eq!(distances[t], pairs[t].0);
    }

    let radius = 3.0_f64;
    let mut expected: Vec<usize> = (0..data.len())
        .filter(|&i| euclid(&q, &data[i]) <= radius)
        .collect();
    expected.sort();
    let got = tree.query_radius(&qb, radius.to_bits()).unwrap();
    assert_eq!(got, expected);
}

#[test]
fn zero_dimensional_points_are_all_at_distance_zero() {
    let data: Vec<Vec<u64>> = vec![Vec::new(), Vec::new()];
    let tree = BallTree::new(data, Euclidean).unwrap();
    assert_eq!(tree.n_samples(), 2);
    let q: Vec<u64> = Vec::new();
    let (idx, dist) = tree.query_nearest(&q).unwrap();
    assert_eq!(idx, 0);
    assert_eq!(f64::from_bits(dist), 0.0);
    let within = tree.query_radius(&q, 0.0_f64.to_bits()).unwrap();
    assert_eq!(within, vec![0, 1]);
}

#[test]
fn all_points_identical_still_works() {
    let data = rows(&[vec![1.5, 1.5], vec![1.5, 1.5], vec![1.5, 1.5]]);
    let tree = BallTree::new(data, Euclidean).unwrap();
    let q = row(&[1.5, 1.5]);
    let (idx, dist) = tree.query_nearest(&q).unwrap();
    assert_eq!(idx, 0);
    assert_eq!(f64::from_bits(dist), 0.0);
    let (indices, _) = tree.query(&q, 3).unwrap();
    assert_eq!(indices, vec![0, 1, 2]);
}
