use std::collections::HashSet;

use gadjid::PDAG;

#[test]
pub fn neighbourhood_query_some_undirected() {
    // 0--1
    let dense: Vec<Vec<i8>> = vec![
        vec![0, 2], //
        vec![0, 0],
    ];
    let cpdag = PDAG::from_row_to_col_vecvec(dense).unwrap();

    assert_eq!(cpdag.n_nodes, 2);
    assert_eq!(
        HashSet::from_iter(cpdag.adjacent_undirected_of(0).iter().copied()),
        HashSet::from([1])
    );
    assert_eq!(
        HashSet::from_iter(cpdag.adjacent_undirected_of(1).iter().copied()),
        HashSet::from([0])
    );

    // 0 -> 1 -- 2
    // |  /
    // v v
    //  3
    let dense: Vec<Vec<i8>> = vec![
        vec![0, 1, 0, 1], //
        vec![0, 0, 2, 1],
        vec![0, 0, 0, 0],
        vec![0, 0, 0, 0],
    ];
    let cpdag = PDAG::from_row_to_col_vecvec(dense).unwrap();

    assert_eq!(cpdag.n_nodes, 4);
    assert_eq!(
        HashSet::from_iter(cpdag.children_of(0).iter().copied()),
        HashSet::from([1, 3])
    );
    assert_eq!(
        HashSet::from_iter(cpdag.possible_children_of(1).iter().copied()),
        HashSet::from([2, 3])
    );
    assert_eq!(
        HashSet::from_iter(cpdag.adjacent_undirected_of(2).iter().copied()),
        HashSet::from([1])
    );
    assert_eq!(
        HashSet::from_iter(cpdag.parents_of(0).iter().copied()),
        HashSet::from([])
    );
    assert_eq!(
        HashSet::from_iter(cpdag.parents_of(1).iter().copied()),
        HashSet::from([0])
    );
    assert_eq!(
        HashSet::from_iter(cpdag.parents_of(2).iter().copied()),
        HashSet::new()
    );
    assert_eq!(
        HashSet::from_iter(cpdag.parents_of(3).iter().copied()),
        HashSet::from([0, 1])
    );

    // 0 -- 1 -- 2 -- 0
    let dense: Vec<Vec<i8>> = vec![
        vec![0, 2, 0], //
        vec![0, 0, 2],
        vec![2, 0, 0],
    ];
    let cpdag = PDAG::from_row_to_col_vecvec(dense).unwrap();

    assert_eq!(cpdag.n_nodes, 3);
    assert_eq!(
        HashSet::from_iter(cpdag.adjacent_undirected_of(0).iter().copied()),
        HashSet::from([1, 2])
    );
    assert_eq!(
        HashSet::from_iter(cpdag.adjacent_undirected_of(1).iter().copied()),
        HashSet::from([0, 2])
    );
    assert_eq!(
        HashSet::from_iter(cpdag.adjacent_undirected_of(2).iter().copied()),
        HashSet::from([0, 1])
    );
    assert_eq!(
        HashSet::from_iter(cpdag.children_of(1).iter().copied()),
        HashSet::new()
    );
}

#[test]
pub fn neighbourhood_query_directed_only() {
    let dense: Vec<Vec<i8>> = vec![
        vec![0, 1], //
        vec![0, 0],
    ];
    let dag = PDAG::from_row_to_col_vecvec(dense).unwrap();

    assert_eq!(dag.n_nodes, 2);
    assert_eq!(
        HashSet::from_iter(dag.children_of(0).iter().copied()),
        HashSet::from([1])
    );
    assert_eq!(
        HashSet::from_iter(dag.children_of(1).iter().copied()),
        HashSet::new()
    );

    // 0 -> 1 -> 2
    // |  /
    // v v
    //  3
    let dense: Vec<Vec<i8>> = vec![
        vec![0, 1, 0, 1], //
        vec![0, 0, 1, 1],
        vec![0, 0, 0, 0],
        vec![0, 0, 0, 0],
    ];
    let dag = PDAG::from_row_to_col_vecvec(dense).unwrap();

    assert_eq!(dag.n_nodes, 4);
    assert_eq!(
        HashSet::from_iter(dag.children_of(0).iter().copied()),
        HashSet::from([1, 3])
    );
    assert_eq!(
        HashSet::from_iter(dag.children_of(1).iter().copied()),
        HashSet::from([2, 3])
    );
    assert_eq!(
        HashSet::from_iter(dag.children_of(2).iter().copied()),
        HashSet::from([])
    );
    assert_eq!(
        HashSet::from_iter(dag.parents_of(0).iter().copied()),
        HashSet::from([])
    );
    assert_eq!(
        HashSet::from_iter(dag.parents_of(1).iter().copied()),
        HashSet::from([0])
    );
    assert_eq!(
        HashSet::from_iter(dag.parents_of(2).iter().copied()),
        HashSet::from([1])
    );
    assert_eq!(
        HashSet::from_iter(dag.parents_of(3).iter().copied()),
        HashSet::from([0, 1])
    );

    let dense: Vec<Vec<i8>> = vec![
        vec![0, 1, 0], //
        vec![0, 0, 0],
        vec![0, 0, 0],
    ];
    let dag = PDAG::from_row_to_col_vecvec(dense).unwrap();

    assert_eq!(dag.n_nodes, 3);
    assert_eq!(
        HashSet::from_iter(dag.children_of(0).iter().copied()),
        HashSet::from([1])
    );
    assert_eq!(
        HashSet::from_iter(dag.children_of(1).iter().copied()),
        HashSet::new()
    );
}

#[test]
pub fn sorted_return_values() {
    let dense_matrices: Vec<Vec<Vec<i8>>> = vec![
        //
        vec![
            vec![0, 2, 0, 1], //
            vec![0, 0, 2, 1],
            vec![0, 0, 0, 0],
            vec![0, 0, 0, 0],
        ],
        //
        vec![
            vec![0, 1, 1, 2, 1], //
            vec![0, 0, 0, 0, 1],
            vec![0, 0, 0, 0, 0],
            vec![0, 1, 0, 0, 1],
            vec![0, 0, 2, 0, 0],
        ],
        vec![
            vec![0, 0, 0, 0, 0], //
            vec![1, 0, 0, 0, 0],
            vec![1, 1, 0, 0, 0],
            vec![1, 2, 2, 0, 0],
            vec![1, 1, 0, 1, 0],
        ],
    ];

    for (i, dense) in dense_matrices.iter().enumerate() {
        let cpdag = PDAG::from_row_to_col_vecvec(dense.clone()).unwrap();

        for n in 0..cpdag.n_nodes {
            let mut children = cpdag.children_of(n).to_vec();
            children.sort();
            assert_eq!(
                children,
                cpdag.children_of(n).to_vec(),
                "cpdag {}: children of node {} are not sorted",
                i,
                n
            );
        }
        for n in 0..cpdag.n_nodes {
            let mut children = cpdag.parents_of(n).to_vec();
            children.sort();
            assert_eq!(
                children,
                cpdag.parents_of(n).to_vec(),
                "cpdag {}: parents of node {} are not sorted",
                i,
                n
            );
        }
        for n in 0..cpdag.n_nodes {
            let mut siblings = cpdag.adjacent_undirected_of(n).to_vec();
            siblings.sort();
            assert_eq!(
                siblings,
                cpdag.adjacent_undirected_of(n).to_vec(),
                "cpdag {}: parents of node {} are not sorted",
                i,
                n
            );
        }
    }
}
