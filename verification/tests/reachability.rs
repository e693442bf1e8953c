use rand::distributions::Distribution;
use rand::SeedableRng;

use gadjid::graph_operations::gensearch;
use gadjid::graph_operations::get_d_pd_nam;
use gadjid::graph_operations::get_descendants;
use gadjid::graph_operations::get_invalidly_un_blocked;
use gadjid::graph_operations::get_nam;
use gadjid::graph_operations::get_nam_nva;
use gadjid::graph_operations::get_pd_nam;
use gadjid::graph_operations::get_pd_nam_nva;
use gadjid::graph_operations::get_possible_descendants;
use gadjid::graph_operations::ruletables::Parents;
use gadjid::mask_to_list;
use gadjid::PDAG;

/// Samples a dense PDAG adjacency matrix with the given edge density.
fn random_pdag_vecvec(edge_density: f64, graph_size: usize, rng: &mut impl rand::RngCore) -> Vec<Vec<i8>> {
    let edge_dist = rand::distributions::Bernoulli::new(edge_density).unwrap();
    // probability that an edge is directed, given that it exists
    let directionality_dist = rand::distributions::Bernoulli::new(0.8).unwrap();
    let mut adjacency = vec![vec![0i8; graph_size]; graph_size];
    let permutation = rand::seq::index::sample(rng, graph_size, graph_size);
    for y in 0..graph_size {
        for x in y + 1..graph_size {
            adjacency[permutation.index(x)][permutation.index(y)] = if edge_dist.sample(rng) {
                if directionality_dist.sample(rng) {
                    1
                } else {
                    2
                }
            } else {
                0
            };
        }
    }
    adjacency
}

#[test]
pub fn nam_test() {
    // 0 -> 1 -- 2
    // |
    // 3
    let cpdag = vec![
        vec![0, 1, 0, 2], //
        vec![0, 0, 2, 0],
        vec![0, 0, 0, 0],
        vec![0, 0, 0, 0],
    ];
    let cpdag = PDAG::from_row_to_col_vecvec(cpdag).unwrap();

    assert_eq!(mask_to_list(&get_nam(&cpdag, &[0])), vec![3]);
}

#[test]
pub fn aid_utils_nam_test() {
    // 0 -> 1 -- 2
    // |
    // 3
    let cpdag = vec![
        vec![0, 1, 0, 2], //
        vec![0, 0, 2, 0],
        vec![0, 0, 0, 0],
        vec![0, 0, 0, 0],
    ];
    let cpdag = PDAG::from_row_to_col_vecvec(cpdag).unwrap();

    assert_eq!(
        mask_to_list(&gadjid::graph_operations::aid_utils::get_nam(&cpdag, &[0])),
        vec![3]
    );
}

#[test]
pub fn test_possible_descendants() {
    // 0 -> 1 -- 2
    // |
    // 3
    let cpdag = vec![
        vec![0, 1, 0, 2], //
        vec![0, 0, 2, 0],
        vec![0, 0, 0, 0],
        vec![0, 0, 0, 0],
    ];
    let cpdag = PDAG::from_row_to_col_vecvec(cpdag).unwrap();
    let result = get_possible_descendants(&cpdag, &[0]);
    assert_eq!(mask_to_list(&result), vec![0, 1, 2, 3]);

    // 5 -> 4 -- 0 -> 1 -- 2
    //           |
    //           3
    let cpdag = vec![
        vec![0, 1, 0, 2, 2, 0], //
        vec![0, 0, 2, 0, 0, 0],
        vec![0, 0, 0, 0, 0, 0],
        vec![0, 0, 0, 0, 0, 0],
        vec![0, 0, 0, 0, 0, 0],
        vec![0, 0, 0, 0, 1, 0],
    ];
    let cpdag = PDAG::from_row_to_col_vecvec(cpdag).unwrap();
    let result = get_possible_descendants(&cpdag, &[4]);
    assert_eq!(mask_to_list(&result), vec![0, 1, 2, 3, 4]);
}

fn assert_reachability_algos_agree_on_graph(pdag: &PDAG, rng: &mut impl rand::RngCore) {
    let t = rand::seq::index::sample(rng, pdag.n_nodes, 1).into_vec();
    let adjust = gensearch(pdag, Parents {}, &t, false);

    let d_expected = get_descendants(pdag, &t);
    let pd_expected = get_possible_descendants(pdag, &t);
    let (nam_expected, nva_expected) = get_nam_nva(pdag, &t, &adjust);

    let n = pdag.n_nodes;
    for v in 0..n {
        assert!(!d_expected[v] || pd_expected[v]);
        assert!(!nam_expected[v] || pd_expected[v]);
        assert!(!nam_expected[v] || nva_expected[v]);
    }

    let (d, pd, nam) = get_d_pd_nam(pdag, &t);
    assert_eq!(d_expected, d);
    assert_eq!(pd_expected, pd);
    assert_eq!(nam_expected, nam);

    let (pd, nam) = get_pd_nam(pdag, &t);
    assert_eq!(nam_expected, nam);
    assert_eq!(pd_expected, pd);

    let nam = get_nam(pdag, &t);
    assert_eq!(nam_expected, nam);

    let (pd, nam, nva) = get_pd_nam_nva(pdag, &t, &adjust);
    assert_eq!(pd_expected, pd);
    assert_eq!(nam_expected, nam);
    assert_eq!(nva_expected, nva);

    let ivb = get_invalidly_un_blocked(pdag, &t, &adjust);
    for v in 0..n {
        assert!(!ivb[v] || nva_expected[v]);
        assert_eq!(nva_expected[v], ivb[v] || nam_expected[v]);
    }
}

#[test]
pub fn reachability_algos_agree_on_random_pdag() {
    let reps = 30;
    let mut rng = rand_chacha::ChaCha8Rng::seed_from_u64(0);
    (0..reps).for_each(|_rep| {
        let pdag = PDAG::from_row_to_col_vecvec(random_pdag_vecvec(0.5, 100, &mut rng)).unwrap();
        assert_reachability_algos_agree_on_graph(&pdag, &mut rng);
    });
}
