use rand::distributions::Distribution;
use rand::SeedableRng;

use gadjid::graph_operations::ancestor_aid;
use gadjid::graph_operations::ancestor_aid_selected_pairs;
use gadjid::graph_operations::oset_aid;
use gadjid::graph_operations::oset_aid_selected_pairs;
use gadjid::graph_operations::parent_aid;
use gadjid::graph_operations::parent_aid_selected_pairs;
use gadjid::graph_operations::shd;
use gadjid::graph_operations::sid;
use gadjid::graph_operations::SIDError;
use gadjid::PDAG;

/// Samples a dense DAG adjacency matrix with the given edge density.
fn random_dag_vecvec(edge_density: f64, graph_size: usize, rng: &mut impl rand::RngCore) -> Vec<Vec<i8>> {
    let edge_dist = rand::distributions::Bernoulli::new(edge_density).unwrap();
    let mut adjacency = vec![vec![0i8; graph_size]; graph_size];
    let permutation = rand::seq::index::sample(rng, graph_size, graph_size);
    for y in 0..graph_size {
        for x in y + 1..graph_size {
            adjacency[permutation.index(x)][permutation.index(y)] =
                if edge_dist.sample(rng) { 1 } else { 0 };
        }
    }
    adjacency
}

/// The (normalized distance, mistake count) form of a metric result.
fn frac(mc: (usize, usize)) -> (f64, usize) {
    if mc.1 == 0 {
        (0.0, mc.0)
    } else {
        (mc.0 as f64 / mc.1 as f64, mc.0)
    }
}

#[test]
pub fn nam_correctly_counted_as_mistake() {
    // mistakes between the cpdag X - Y and dag X -> Y for all distances
    let dag = vec![
        vec![0, 1], //
        vec![0, 0],
    ];
    let cpdag = vec![
        vec![0, 2], //
        vec![0, 0],
    ];
    let dag = PDAG::from_row_to_col_vecvec(dag).unwrap();
    let cpdag = PDAG::from_row_to_col_vecvec(cpdag).unwrap();

    assert_eq!((1.0, 2), frac(parent_aid(&dag, &cpdag)));
    assert_eq!((1.0, 2), frac(parent_aid(&cpdag, &dag)));
    assert_eq!((1.0, 2), frac(ancestor_aid(&dag, &cpdag)));
    assert_eq!((1.0, 2), frac(ancestor_aid(&cpdag, &dag)));
    assert_eq!((1.0, 2), frac(oset_aid(&dag, &cpdag)));
    assert_eq!((1.0, 2), frac(oset_aid(&cpdag, &dag)));
}

#[test]
pub fn aid_utils_nam_correctly_counted_as_mistake() {
    let dag = vec![
        vec![0, 1], //
        vec![0, 0],
    ];
    let cpdag = vec![
        vec![0, 2], //
        vec![0, 0],
    ];
    let dag = PDAG::from_row_to_col_vecvec(dag).unwrap();
    let cpdag = PDAG::from_row_to_col_vecvec(cpdag).unwrap();

    assert_eq!((1.0, 2), frac(parent_aid(&dag, &cpdag)));
    assert_eq!((1.0, 2), frac(parent_aid(&cpdag, &dag)));
    assert_eq!((1.0, 2), frac(ancestor_aid(&dag, &cpdag)));
    assert_eq!((1.0, 2), frac(ancestor_aid(&cpdag, &dag)));
    assert_eq!((1.0, 2), frac(oset_aid(&dag, &cpdag)));
    assert_eq!((1.0, 2), frac(oset_aid(&cpdag, &dag)));
}

#[test]
fn sid_paper_test() {
    // comparing with the examples listed in the structural intervention
    // distance paper; for DAGs the Parent-AID reduces to the SID
    let g = vec![
        vec![0, 1, 1, 1, 1],
        vec![0, 0, 1, 1, 1],
        vec![0, 0, 0, 0, 0],
        vec![0, 0, 0, 0, 0],
        vec![0, 0, 0, 0, 0],
    ];
    let h1 = vec![
        vec![0, 1, 1, 1, 1],
        vec![0, 0, 1, 1, 1],
        vec![0, 0, 0, 1, 0],
        vec![0, 0, 0, 0, 0],
        vec![0, 0, 0, 0, 0],
    ];
    let h2 = vec![
        vec![0, 0, 1, 1, 1],
        vec![1, 0, 1, 1, 1],
        vec![0, 0, 0, 0, 0],
        vec![0, 0, 0, 0, 0],
        vec![0, 0, 0, 0, 0],
    ];
    let g_dag = PDAG::from_row_to_col_vecvec(g).unwrap();
    let h1_dag = PDAG::from_row_to_col_vecvec(h1).unwrap();
    let h2_dag = PDAG::from_row_to_col_vecvec(h2).unwrap();

    assert_eq!(frac(parent_aid(&g_dag, &h1_dag)), (0.0, 0));
    assert_eq!(frac(parent_aid(&g_dag, &h2_dag)), (0.4, 8));
}

#[test]
fn sid_equals_parent_aid_on_dags() {
    let mut rng = rand_chacha::ChaCha8Rng::seed_from_u64(7);
    for n in 2..12 {
        let a = PDAG::from_row_to_col_vecvec(random_dag_vecvec(0.5, n, &mut rng)).unwrap();
        let b = PDAG::from_row_to_col_vecvec(random_dag_vecvec(0.5, n, &mut rng)).unwrap();
        assert_eq!(sid(&a, &b).unwrap(), parent_aid(&a, &b));
    }
}

#[test]
fn sid_rejects_cpdags() {
    let dag = PDAG::from_row_to_col_vecvec(vec![
        vec![0, 1], //
        vec![0, 0],
    ])
    .unwrap();
    let cpdag = PDAG::from_row_to_col_vecvec(vec![
        vec![0, 2], //
        vec![0, 0],
    ])
    .unwrap();
    assert!(matches!(sid(&cpdag, &dag), Err(SIDError::TruthNotDAG)));
    assert!(matches!(sid(&dag, &cpdag), Err(SIDError::GuessNotDAG)));
    let bigger = PDAG::from_row_to_col_vecvec(vec![
        vec![0, 1, 0], //
        vec![0, 0, 1],
        vec![0, 0, 0],
    ])
    .unwrap();
    assert!(matches!(sid(&dag, &bigger), Err(SIDError::NotSameSize)));
    assert!(sid(&dag, &dag).is_ok());
}

/// Structural Hamming distance computed directly on the adjacency matrices,
/// ignoring the diagonal; used only to cross-check `shd`.
fn shd_from_adjacency(g_truth: &[Vec<i8>], g_guess: &[Vec<i8>]) -> (f64, usize) {
    assert_eq!(g_truth.len(), g_guess.len(), "matrix outer dimension mismatch");
    if g_truth.len() == 1 {
        return (0f64, 0);
    }
    let dim = g_truth.len();
    let mut dist = 0;
    for i in 0..dim {
        assert_eq!(
            g_truth[i].len(),
            g_guess[i].len(),
            "matrix dimension mismatch at inner index {i}"
        );
        for j in (i + 1)..dim {
            let upper_triangle_match = g_truth[i][j] == g_guess[i][j];
            if !upper_triangle_match {
                dist += 1;
            } else {
                let lower_triangle_match = g_truth[j][i] == g_guess[j][i];
                if !lower_triangle_match {
                    dist += 1;
                }
            }
        }
    }
    let comparisons = g_truth.len() * (g_truth.len() - 1) / 2;
    (dist as f64 / comparisons as f64, dist)
}

#[test]
fn structural_hamming_distance_dag() {
    let g_truth = vec![vec![0]];
    let g_guess = vec![vec![0]];
    assert_eq!(shd_from_adjacency(&g_truth, &g_guess), (0f64, 0));
    let (d_truth, d_guess) = (
        PDAG::from_row_to_col_vecvec(g_truth).unwrap(),
        PDAG::from_row_to_col_vecvec(g_guess).unwrap(),
    );
    assert_eq!(frac(shd(&d_truth, &d_guess)), (0f64, 0));

    let g_truth = vec![
        vec![0, 1], //
        vec![0, 0],
    ];
    let g_guess = vec![
        vec![0, 0], //
        vec![0, 0],
    ];
    assert_eq!(shd_from_adjacency(&g_truth, &g_guess), (1f64, 1));
    let (d_truth, d_guess) = (
        PDAG::from_row_to_col_vecvec(g_truth).unwrap(),
        PDAG::from_row_to_col_vecvec(g_guess).unwrap(),
    );
    assert_eq!(frac(shd(&d_truth, &d_guess)), (1f64, 1));

    // 0 -> 1 vs 0 <- 1
    let g_truth = vec![
        vec![0, 1], //
        vec![0, 0],
    ];
    let g_guess = vec![
        vec![0, 0], //
        vec![1, 0],
    ];
    assert_eq!(shd_from_adjacency(&g_truth, &g_guess), (1f64, 1));
    let (d_truth, d_guess) = (
        PDAG::from_row_to_col_vecvec(g_truth).unwrap(),
        PDAG::from_row_to_col_vecvec(g_guess).unwrap(),
    );
    assert_eq!(frac(shd(&d_truth, &d_guess)), (1f64, 1));

    let g_truth = vec![
        vec![0, 1, 1], //
        vec![0, 0, 1],
        vec![0, 0, 0],
    ];
    let g_guess = vec![
        vec![0, 1, 1], //
        vec![0, 0, 1],
        vec![0, 0, 0],
    ];
    assert_eq!(shd_from_adjacency(&g_truth, &g_guess), (0f64, 0));
    let (d_truth, d_guess) = (
        PDAG::from_row_to_col_vecvec(g_truth).unwrap(),
        PDAG::from_row_to_col_vecvec(g_guess).unwrap(),
    );
    assert_eq!(frac(shd(&d_truth, &d_guess)), (0f64, 0));

    let g_truth = vec![
        vec![0, 1, 0, 1], //
        vec![0, 0, 1, 1],
        vec![0, 0, 0, 0],
        vec![0, 0, 0, 0],
    ];
    let g_guess = vec![
        vec![0, 1, 0, 1], //
        vec![0, 0, 1, 0],
        vec![0, 0, 0, 0],
        vec![0, 1, 0, 0],
    ];
    assert_eq!(shd_from_adjacency(&g_truth, &g_guess), (1f64 / 6f64, 1));
    let (d_truth, d_guess) = (
        PDAG::from_row_to_col_vecvec(g_truth).unwrap(),
        PDAG::from_row_to_col_vecvec(g_guess).unwrap(),
    );
    assert_eq!(frac(shd(&d_truth, &d_guess)), (1f64 / 6f64, 1));
}

#[test]
fn structural_hamming_distance_pdag() {
    let g_truth = vec![vec![0]];
    let g_guess = vec![vec![0]];
    assert_eq!(shd_from_adjacency(&g_truth, &g_guess), (0f64, 0));
    let (d_truth, d_guess) = (
        PDAG::from_row_to_col_vecvec(g_truth).unwrap(),
        PDAG::from_row_to_col_vecvec(g_guess).unwrap(),
    );
    assert_eq!(frac(shd(&d_truth, &d_guess)), (0f64, 0));

    let g_truth = vec![
        vec![0, 2], //
        vec![0, 0],
    ];
    let g_guess = vec![
        vec![0, 0], //
        vec![0, 0],
    ];
    assert_eq!(shd_from_adjacency(&g_truth, &g_guess), (1f64, 1));
    let (d_truth, d_guess) = (
        PDAG::from_row_to_col_vecvec(g_truth).unwrap(),
        PDAG::from_row_to_col_vecvec(g_guess).unwrap(),
    );
    assert_eq!(frac(shd(&d_truth, &d_guess)), (1f64, 1));

    // 0 -- 1 vs 0 <- 1
    let g_truth = vec![
        vec![0, 2], //
        vec![0, 0],
    ];
    let g_guess = vec![
        vec![0, 0], //
        vec![1, 0],
    ];
    assert_eq!(shd_from_adjacency(&g_truth, &g_guess), (1f64, 1));
    let (d_truth, d_guess) = (
        PDAG::from_row_to_col_vecvec(g_truth).unwrap(),
        PDAG::from_row_to_col_vecvec(g_guess).unwrap(),
    );
    assert_eq!(frac(shd(&d_truth, &d_guess)), (1f64, 1));

    let g_truth = vec![
        vec![0, 2, 1], //
        vec![0, 0, 1],
        vec![0, 0, 0],
    ];
    let g_guess = vec![
        vec![0, 2, 1], //
        vec![0, 0, 1],
        vec![0, 0, 0],
    ];
    assert_eq!(shd_from_adjacency(&g_truth, &g_guess), (0f64, 0));
    let (d_truth, d_guess) = (
        PDAG::from_row_to_col_vecvec(g_truth).unwrap(),
        PDAG::from_row_to_col_vecvec(g_guess).unwrap(),
    );
    assert_eq!(frac(shd(&d_truth, &d_guess)), (0f64, 0));

    let g_truth = vec![
        vec![0, 2, 1], //
        vec![0, 0, 1],
        vec![0, 0, 0],
    ];
    let g_guess = vec![
        vec![0, 1, 2], //
        vec![0, 0, 2],
        vec![0, 0, 0],
    ];
    assert_eq!(shd_from_adjacency(&g_truth, &g_guess), (1f64, 3));
    let (d_truth, d_guess) = (
        PDAG::from_row_to_col_vecvec(g_truth).unwrap(),
        PDAG::from_row_to_col_vecvec(g_guess).unwrap(),
    );
    assert_eq!(frac(shd(&d_truth, &d_guess)), (1f64, 3));

    let g_truth = vec![
        vec![0, 2, 0, 1], //
        vec![0, 0, 1, 1],
        vec![0, 0, 0, 0],
        vec![0, 0, 0, 0],
    ];
    let g_guess = vec![
        vec![0, 2, 0, 1], //
        vec![0, 0, 1, 0],
        vec![0, 0, 0, 0],
        vec![0, 2, 0, 0],
    ];
    assert_eq!(shd_from_adjacency(&g_truth, &g_guess), (1f64 / 6f64, 1));
    let (d_truth, d_guess) = (
        PDAG::from_row_to_col_vecvec(g_truth).unwrap(),
        PDAG::from_row_to_col_vecvec(g_guess).unwrap(),
    );
    assert_eq!(frac(shd(&d_truth, &d_guess)), (1f64 / 6f64, 1));
}

#[test]
fn shd_property_equal_dags_zero_distance() {
    let mut rng = rand_chacha::ChaCha8Rng::seed_from_u64(0);
    for n in 2..40 {
        let dag = PDAG::from_row_to_col_vecvec(random_dag_vecvec(0.5, n, &mut rng)).unwrap();
        assert_eq!(
            (0.0, 0),
            frac(shd(&dag, &dag)),
            "dist between same dags of size {n} must be zero"
        );
    }
}

#[test]
fn parent_aid_property_equal_dags_zero_distance() {
    let mut rng = rand_chacha::ChaCha8Rng::seed_from_u64(0);
    for n in 2..40 {
        for _rep in 0..2 {
            let dag = PDAG::from_row_to_col_vecvec(random_dag_vecvec(0.5, n, &mut rng)).unwrap();
            assert_eq!(
                (0.0, 0),
                frac(parent_aid(&dag, &dag)),
                "parent_aid between same dags of size {n} must be zero, dag: {:?}",
                dag
            );
        }
    }
}

#[test]
fn ancestor_aid_property_equal_dags_zero_distance() {
    let mut rng = rand_chacha::ChaCha8Rng::seed_from_u64(0);
    for n in 2..40 {
        for _rep in 0..2 {
            let dag = PDAG::from_row_to_col_vecvec(random_dag_vecvec(0.5, n, &mut rng)).unwrap();
            assert_eq!(
                (0.0, 0),
                frac(ancestor_aid(&dag, &dag)),
                "ancestor_aid between same dags of size {n} must be zero, dag: {:?}",
                dag
            );
        }
    }
}

#[test]
fn oset_aid_property_equal_dags_zero_distance() {
    let mut rng = rand_chacha::ChaCha8Rng::seed_from_u64(0);
    for n in 2..40 {
        for _rep in 0..2 {
            let dag = PDAG::from_row_to_col_vecvec(random_dag_vecvec(0.5, n, &mut rng)).unwrap();
            assert_eq!(
                (0.0, 0),
                frac(oset_aid(&dag, &dag)),
                "oset_aid between same dags of size {n} must be zero, dag: {:?}",
                dag
            );
        }
    }
}

#[test]
fn selected_pairs_match_full_metrics() {
    let mut rng = rand_chacha::ChaCha8Rng::seed_from_u64(11);
    for n in 2..10 {
        let a = PDAG::from_row_to_col_vecvec(random_dag_vecvec(0.5, n, &mut rng)).unwrap();
        let b = PDAG::from_row_to_col_vecvec(random_dag_vecvec(0.5, n, &mut rng)).unwrap();
        let mut all_pairs = Vec::new();
        for t in 0..n {
            for y in 0..n {
                if t != y {
                    all_pairs.push((t, y));
                }
            }
        }
        assert_eq!(parent_aid_selected_pairs(&a, &b, &all_pairs), parent_aid(&a, &b));
        assert_eq!(ancestor_aid_selected_pairs(&a, &b, &all_pairs), ancestor_aid(&a, &b));
        assert_eq!(oset_aid_selected_pairs(&a, &b, &all_pairs), oset_aid(&a, &b));
    }
    // a strict subset of the pairs normalizes by the pair count
    let a = PDAG::from_row_to_col_vecvec(vec![
        vec![0, 1], //
        vec![0, 0],
    ])
    .unwrap();
    let b = PDAG::from_row_to_col_vecvec(vec![
        vec![0, 2], //
        vec![0, 0],
    ])
    .unwrap();
    assert_eq!(parent_aid_selected_pairs(&a, &b, &[(0, 1)]), (1, 1));
}

#[test]
fn normalization_bounds() {
    let mut rng = rand_chacha::ChaCha8Rng::seed_from_u64(3);
    for n in 2..12 {
        let a = PDAG::from_row_to_col_vecvec(random_dag_vecvec(0.6, n, &mut rng)).unwrap();
        let b = PDAG::from_row_to_col_vecvec(random_dag_vecvec(0.6, n, &mut rng)).unwrap();
        for (m, c) in [parent_aid(&a, &b), ancestor_aid(&a, &b), oset_aid(&a, &b)] {
            assert_eq!(c, n * (n - 1));
            assert!(m <= c);
            let f = frac((m, c)).0;
            assert!((0.0..=1.0).contains(&f));
            assert_eq!(f, m as f64 / c as f64);
        }
        let (m, c) = shd(&a, &b);
        assert_eq!(c, n * (n - 1) / 2);
        assert!(m <= c);
    }
}
