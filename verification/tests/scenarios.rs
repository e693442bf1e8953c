use std::collections::HashSet;

use rand::distributions::Distribution;
use rand::SeedableRng;

use gadjid::graph_operations::ancestor_aid;
use gadjid::graph_operations::get_nam;
use gadjid::graph_operations::get_possible_descendants;
use gadjid::graph_operations::optimal_adjustment_set;
use gadjid::graph_operations::oset_aid;
use gadjid::graph_operations::parent_aid;
use gadjid::graph_operations::shd;
use gadjid::graph_operations::sid;
use gadjid::mask_to_list;
use gadjid::PDAG;

fn frac(mc: (usize, usize)) -> (f64, usize) {
    if mc.1 == 0 {
        (0.0, mc.0)
    } else {
        (mc.0 as f64 / mc.1 as f64, mc.0)
    }
}

#[test]
fn chain_graph_all_metrics_zero() {
    // truth and guess are both the 3-chain 0 -> 1 -> 2
    let chain = vec![
        vec![0, 1, 0], //
        vec![0, 0, 1],
        vec![0, 0, 0],
    ];
    let truth = PDAG::from_row_to_col_vecvec(chain.clone()).unwrap();
    let guess = PDAG::from_row_to_col_vecvec(chain).unwrap();

    assert_eq!((0.0, 0), frac(parent_aid(&truth, &guess)));
    assert_eq!((0.0, 0), frac(ancestor_aid(&truth, &guess)));
    assert_eq!((0.0, 0), frac(oset_aid(&truth, &guess)));
    assert_eq!((0.0, 0), frac(shd(&truth, &guess)));
    assert_eq!((0.0, 0), frac(sid(&truth, &guess).unwrap()));
}

/// The fully connected 5-node DAG with directions 0 -> {1,2,3,4} and
/// 1 -> {2,3,4}, from the structural intervention distance paper.
fn sid_paper_truth() -> Vec<Vec<i8>> {
    vec![
        vec![0, 1, 1, 1, 1],
        vec![0, 0, 1, 1, 1],
        vec![0, 0, 0, 0, 0],
        vec![0, 0, 0, 0, 0],
        vec![0, 0, 0, 0, 0],
    ]
}

#[test]
fn paper_dag_same_guess_zero() {
    let truth = PDAG::from_row_to_col_vecvec(sid_paper_truth()).unwrap();
    let guess = PDAG::from_row_to_col_vecvec(sid_paper_truth()).unwrap();
    assert_eq!((0.0, 0), frac(parent_aid(&truth, &guess)));
}

#[test]
fn paper_dag_added_edge_still_zero() {
    // adding the single edge 2 -> 3 does not affect identification
    let truth = PDAG::from_row_to_col_vecvec(sid_paper_truth()).unwrap();
    let mut with_extra = sid_paper_truth();
    with_extra[2][3] = 1;
    let guess = PDAG::from_row_to_col_vecvec(with_extra).unwrap();
    assert_eq!((0.0, 0), frac(parent_aid(&truth, &guess)));
}

#[test]
fn paper_dag_reversed_edge_mistakes() {
    // reversing the 0 -> 1 edge gives 8 mistaken pairs
    let truth = PDAG::from_row_to_col_vecvec(sid_paper_truth()).unwrap();
    let mut reversed = sid_paper_truth();
    reversed[0][1] = 0;
    reversed[1][0] = 1;
    let guess = PDAG::from_row_to_col_vecvec(reversed).unwrap();
    assert_eq!((0.4, 8), frac(parent_aid(&truth, &guess)));
}

#[test]
fn two_node_shd() {
    // truth = guess = 0 -> 1
    let edge = vec![
        vec![0, 1], //
        vec![0, 0],
    ];
    let truth = PDAG::from_row_to_col_vecvec(edge.clone()).unwrap();
    let guess = PDAG::from_row_to_col_vecvec(edge).unwrap();
    assert_eq!((0.0, 0), frac(shd(&truth, &guess)));

    // reversing the edge in the guess gives distance one
    let reversed = vec![
        vec![0, 0], //
        vec![1, 0],
    ];
    let guess = PDAG::from_row_to_col_vecvec(reversed).unwrap();
    assert_eq!((1.0, 1), frac(shd(&truth, &guess)));
}

#[test]
fn diamond_optimal_adjustment_sets() {
    // diamond 0 -> {1, 2} -> 3: treating 0 needs no adjustment; treating one
    // middle node needs the other middle node (the parent of the response
    // that is not a descendant of the treatment)
    let diamond = vec![
        vec![0, 1, 1, 0], //
        vec![0, 0, 0, 1],
        vec![0, 0, 0, 1],
        vec![0, 0, 0, 0],
    ];
    let dag = PDAG::from_row_to_col_vecvec(diamond).unwrap();

    assert_eq!(
        mask_to_list(&optimal_adjustment_set(&dag, &[0], &[3])),
        Vec::<usize>::new()
    );
    assert_eq!(mask_to_list(&optimal_adjustment_set(&dag, &[1], &[3])), vec![2]);
    assert_eq!(mask_to_list(&optimal_adjustment_set(&dag, &[2], &[3])), vec![1]);
}

#[test]
fn cpdag_amenability_and_possible_descendants() {
    // CPDAG 0 -> 1 -- 2 with 0 -- 3: exactly the target first reached along
    // an undirected edge is not amenable
    let cpdag = vec![
        vec![0, 1, 0, 2], //
        vec![0, 0, 2, 0],
        vec![0, 0, 0, 0],
        vec![0, 0, 0, 0],
    ];
    let cpdag = PDAG::from_row_to_col_vecvec(cpdag).unwrap();

    assert_eq!(mask_to_list(&get_nam(&cpdag, &[0])), vec![3]);
    assert_eq!(mask_to_list(&get_possible_descendants(&cpdag, &[0])), vec![0, 1, 2, 3]);
}

#[test]
fn two_node_amenability_counts() {
    // every AID between 0 -> 1 and 0 -- 1 grades both ordered pairs mistakes
    let a = PDAG::from_row_to_col_vecvec(vec![
        vec![0, 1], //
        vec![0, 0],
    ])
    .unwrap();
    let b = PDAG::from_row_to_col_vecvec(vec![
        vec![0, 2], //
        vec![0, 0],
    ])
    .unwrap();
    for (m, c) in [
        parent_aid(&a, &b),
        parent_aid(&b, &a),
        ancestor_aid(&a, &b),
        ancestor_aid(&b, &a),
        oset_aid(&a, &b),
        oset_aid(&b, &a),
    ] {
        assert_eq!((m, c), (2, 2));
    }
}

#[test]
fn o_set() {
    // 0 -> 1 --> 2 ---> 3 <----7
    //      |     |      |
    //      v     v      v
    //      4 <-- 5 <--- 6
    let v_dag = vec![
        vec![0, 1, 0, 0, 0, 0, 0, 0], //
        vec![0, 0, 1, 0, 1, 0, 0, 0],
        vec![0, 0, 0, 1, 0, 1, 0, 0],
        vec![0, 0, 0, 0, 0, 0, 1, 0],
        vec![0, 0, 0, 0, 0, 0, 0, 0],
        vec![0, 0, 0, 0, 1, 0, 0, 0],
        vec![0, 0, 0, 0, 0, 1, 0, 0],
        vec![0, 0, 0, 1, 0, 0, 0, 0],
    ];
    let dag = PDAG::from_row_to_col_vecvec(v_dag).unwrap();

    let to_set = |m: &Vec<bool>| -> HashSet<usize> { HashSet::from_iter(mask_to_list(m)) };

    assert_eq!(HashSet::from([7]), to_set(&optimal_adjustment_set(&dag, &[1], &[5])));
    assert_eq!(HashSet::from([7]), to_set(&optimal_adjustment_set(&dag, &[0, 2], &[4])));
    assert_eq!(HashSet::from([7]), to_set(&optimal_adjustment_set(&dag, &[0, 2], &[6])));
    assert_eq!(HashSet::from([7]), to_set(&optimal_adjustment_set(&dag, &[1], &[6])));
    assert_eq!(HashSet::from([7]), to_set(&optimal_adjustment_set(&dag, &[2], &[5])));
    assert_eq!(HashSet::from([7]), to_set(&optimal_adjustment_set(&dag, &[2], &[6])));
    assert_eq!(HashSet::from([2]), to_set(&optimal_adjustment_set(&dag, &[7], &[5])));

    //      _-> 1 -_
    //     /        \
    //    /          \
    //   /            v
    // 0 <- 4 -> 5 -> 2 -> 3
    //   \                ^
    //    \              /
    //     v            /
    //      6 ------> 7
    let v_dag = vec![
        vec![0, 1, 0, 0, 0, 0, 1, 0], //
        vec![0, 0, 1, 0, 0, 0, 0, 0],
        vec![0, 0, 0, 1, 0, 0, 0, 0],
        vec![0, 0, 0, 0, 0, 0, 0, 0],
        vec![1, 0, 0, 0, 0, 1, 0, 0],
        vec![0, 0, 1, 0, 0, 0, 0, 0],
        vec![0, 0, 0, 0, 0, 0, 0, 1],
        vec![0, 0, 0, 1, 0, 0, 0, 0],
    ];
    let dag = PDAG::from_row_to_col_vecvec(v_dag).unwrap();

    assert_eq!(HashSet::from([5]), to_set(&optimal_adjustment_set(&dag, &[0], &[3])));
    assert_eq!(HashSet::from([1, 7]), to_set(&optimal_adjustment_set(&dag, &[5], &[3])));
}

/// Samples a dense PDAG adjacency matrix with the given edge density.
fn random_pdag_vecvec(edge_density: f64, graph_size: usize, rng: &mut impl rand::RngCore) -> Vec<Vec<i8>> {
    let edge_dist = rand::distributions::Bernoulli::new(edge_density).unwrap();
    let directionality_dist = rand::distributions::Bernoulli::new(0.8).unwrap();
    let mut adjacency = vec![vec![0i8; graph_size]; graph_size];
    let permutation = rand::seq::index::sample(rng, graph_size, graph_size);
    for y in 0..graph_size {
        for x in y + 1..graph_size {
            adjacency[permutation.index(x)][permutation.index(y)] = if edge_dist.sample(rng) {
                if directionality_dist.sample(rng) {
                    1
                } else {
                    2
                }
            } else {
                0
            };
        }
    }
    adjacency
}

#[test]
pub fn property_row_major_and_col_major_loading_equal() {
    let mut rng = rand_chacha::ChaCha8Rng::seed_from_u64(0);
    for size in 3..40 {
        let edge_density = 0.5;
        let adjacency = random_pdag_vecvec(edge_density, size, &mut rng);

        // transpose the adjacency matrix
        let mut transpose_adjacency = vec![vec![0; size]; size];
        for (x, row) in transpose_adjacency.iter_mut().enumerate() {
            for (y, entry) in row.iter_mut().enumerate() {
                *entry = adjacency[y][x];
            }
        }

        let row_major_dag = PDAG::from_row_to_col_vecvec(adjacency).unwrap();
        let col_major_dag = PDAG::from_col_to_row_vecvec(transpose_adjacency).unwrap();

        // the final representations should be fully equal
        assert_eq!(row_major_dag, col_major_dag);
    }
}

#[test]
pub fn random_pdags_no_failure_load() {
    let mut rng = rand_chacha::ChaCha8Rng::seed_from_u64(0);
    for n in 1..40 {
        PDAG::from_row_to_col_vecvec(random_pdag_vecvec(0.5, n, &mut rng)).unwrap();
    }
}

#[test]
pub fn property_random_dags_acyclic() {
    let mut rng = rand_chacha::ChaCha8Rng::seed_from_u64(0);
    for n in 1..40 {
        let edge_dist = rand::distributions::Bernoulli::new(0.5).unwrap();
        let mut adjacency = vec![vec![0i8; n]; n];
        let permutation = rand::seq::index::sample(&mut rng, n, n);
        for y in 0..n {
            for x in y + 1..n {
                adjacency[permutation.index(x)][permutation.index(y)] =
                    if edge_dist.sample(&mut rng) { 1 } else { 0 };
            }
        }
        PDAG::from_row_to_col_vecvec(adjacency).unwrap();
    }
}
