use gadjid::Edgelist;
use gadjid::LoadError;
use gadjid::NotSimpleKind;
use gadjid::PDAG;

#[test]
fn load_row_major() {
    // matrix we are simulating is
    // 0 1 1
    // 0 0 1
    // 0 0 0
    let triples = vec![(0, 1, 1), (0, 2, 1), (1, 2, 1)];
    let edgelist = Edgelist { size: 3, triples };
    assert!(PDAG::try_from_row_major(edgelist).is_ok());
}

#[test]
#[should_panic]
fn fail_load_row_major() {
    // same matrix, but yielding in the wrong order
    let triples = vec![(1, 2, 1), (0, 1, 1), (0, 2, 1)];
    let edgelist = Edgelist { size: 3, triples };
    PDAG::try_from_row_major(edgelist).unwrap();
}

#[test]
fn load_col_major() {
    // matrix we are simulating is
    // 0 1 1
    // 0 0 1
    // 0 0 0
    let triples = vec![(1, 0, 1), (2, 0, 1), (2, 1, 1)];
    let edgelist = Edgelist { size: 3, triples };
    assert!(PDAG::try_from_col_major(edgelist).is_ok());
}

#[test]
#[should_panic]
fn fail_load_col_major() {
    // same matrix, but yielding in the wrong order
    let triples = vec![(2, 0, 1), (1, 0, 1), (2, 1, 1)];
    let edgelist = Edgelist { size: 3, triples };
    PDAG::try_from_col_major(edgelist).unwrap();
}

#[test]
#[should_panic]
pub fn fail_if_not_simple() {
    let dense: Vec<Vec<i8>> = vec![
        vec![0, 1], //
        vec![1, 0],
    ];
    PDAG::from_row_to_col_vecvec(dense).unwrap();
}

#[test]
#[should_panic]
pub fn fail_if_not_simple2() {
    let dense: Vec<Vec<i8>> = vec![
        vec![0, 1], //
        vec![2, 0],
    ];
    PDAG::from_row_to_col_vecvec(dense).unwrap();
}

#[test]
pub fn lenient_with_undirected() {
    let dense: Vec<Vec<i8>> = vec![
        vec![0, 2, 0], //
        vec![2, 0, 2],
        vec![0, 0, 0],
    ];
    PDAG::from_row_to_col_vecvec(dense).unwrap();
}

#[test]
#[should_panic]
fn cyclic_dag_fail_0() {
    let g_truth = vec![
        vec![0, 1, 0], //
        vec![0, 0, 1],
        vec![0, 1, 0],
    ];
    let _ = PDAG::from_row_to_col_vecvec(g_truth).unwrap();
}

#[test]
#[should_panic]
fn cyclic_dag_fail_1() {
    let g_truth = vec![
        vec![0, 1, 0], //
        vec![0, 0, 1],
        vec![1, 0, 0],
    ];
    let _ = PDAG::from_row_to_col_vecvec(g_truth).unwrap();
}

#[test]
#[should_panic]
fn cyclic_dag_fail_2() {
    let g_truth = vec![
        vec![0, 1, 1], //
        vec![0, 0, 1],
        vec![1, 1, 0],
    ];
    let _ = PDAG::from_row_to_col_vecvec(g_truth).unwrap();
}

#[test]
fn load_error_variants() {
    // a value outside {0, 1, 2}
    let bad = vec![
        vec![0, 3], //
        vec![0, 0],
    ];
    assert!(matches!(
        PDAG::from_row_to_col_vecvec(bad),
        Err(LoadError::BadValue(0, 1, 3))
    ));
    // a non-zero diagonal entry
    let diag = vec![
        vec![1, 0], //
        vec![0, 0],
    ];
    assert!(matches!(
        PDAG::from_row_to_col_vecvec(diag),
        Err(LoadError::SelfLoop(0, 1))
    ));
    // a directed cycle
    let two_directions = vec![
        vec![0, 1], //
        vec![1, 0],
    ];
    assert!(matches!(
        PDAG::from_row_to_col_vecvec(two_directions),
        Err(LoadError::NotSimple(NotSimpleKind::TwoDirections))
    ));
    let dir_and_und = vec![
        vec![0, 1], //
        vec![2, 0],
    ];
    assert!(matches!(
        PDAG::from_row_to_col_vecvec(dir_and_und),
        Err(LoadError::NotSimple(NotSimpleKind::DirectedAndUndirected))
    ));
    let cyc3 = vec![
        vec![0, 1, 0], //
        vec![0, 0, 1],
        vec![1, 0, 0],
    ];
    assert!(matches!(
        PDAG::from_row_to_col_vecvec(cyc3),
        Err(LoadError::NotAcyclic)
    ));
    // an out-of-order triple stream
    let triples = vec![(0, 2, 1), (0, 1, 1)];
    let edgelist = Edgelist { size: 3, triples };
    assert!(matches!(
        PDAG::try_from_row_major(edgelist),
        Err(LoadError::OutOfOrder(0, 2, 0, 1))
    ));
}
