use std::collections::HashSet;

use gadjid::graph_operations::get_ancestors;
use gadjid::graph_operations::get_children;
use gadjid::graph_operations::get_descendants;
use gadjid::graph_operations::get_parents;
use gadjid::graph_operations::get_proper_ancestors;
use gadjid::mask_to_list;
use gadjid::PDAG;

fn to_set(mask: &Vec<bool>) -> HashSet<usize> {
    HashSet::from_iter(mask_to_list(mask))
}

#[test]
fn ancestors() {
    // 0 -> 1 -> 2
    let v_dag = vec![
        vec![0, 1, 0], //
        vec![0, 0, 1],
        vec![0, 0, 0],
    ];
    let dag = PDAG::from_row_to_col_vecvec(v_dag).unwrap();

    let expected = HashSet::from([0, 1, 2]);
    let result = get_ancestors(&dag, &[1, 2]);
    assert_eq!(expected, to_set(&result));

    let expected = HashSet::from([0, 1, 2]);
    let result = get_ancestors(&dag, &[2]);
    assert_eq!(expected, to_set(&result));

    let expected = HashSet::from([0, 1]);
    let result = get_ancestors(&dag, &[1]);
    assert_eq!(expected, to_set(&result));

    let expected = HashSet::from([0]);
    let result = get_ancestors(&dag, &[0]);
    assert_eq!(expected, to_set(&result));

    // 0 -> 1 -> 2 ----> 3
    //           ^       ^
    //            \_   _/
    //               4
    let v_dag = vec![
        vec![0, 1, 0, 0, 0], //
        vec![0, 0, 1, 0, 0],
        vec![0, 0, 0, 1, 0],
        vec![0, 0, 0, 0, 0],
        vec![0, 0, 1, 1, 0],
    ];
    let dag = PDAG::from_row_to_col_vecvec(v_dag).unwrap();

    let expected = HashSet::from([0, 1, 2, 4]);
    let result = get_ancestors(&dag, &[2]);
    assert_eq!(expected, to_set(&result));

    let expected = HashSet::from([0, 1]);
    let result = get_ancestors(&dag, &[0, 1]);
    assert_eq!(expected, to_set(&result));

    let expected = HashSet::from([4]);
    let result = get_ancestors(&dag, &[4]);
    assert_eq!(expected, to_set(&result));

    let expected = HashSet::from([0, 1, 2, 3, 4]);
    let result = get_ancestors(&dag, &[3]);
    assert_eq!(expected, to_set(&result));
}

#[test]
fn descendants_search() {
    // 0 -> 1 -> 2
    let v_dag = vec![
        vec![0, 1, 0], //
        vec![0, 0, 1],
        vec![0, 0, 0],
    ];
    let dag = PDAG::from_row_to_col_vecvec(v_dag).unwrap();

    let expected = HashSet::from([1, 2]);
    let result = get_descendants(&dag, &[2, 1]);
    assert_eq!(expected, to_set(&result));

    let expected = HashSet::from([2]);
    let result = get_descendants(&dag, &[2]);
    assert_eq!(expected, to_set(&result));

    let expected = HashSet::from([1, 2]);
    let result = get_descendants(&dag, &[1]);
    assert_eq!(expected, to_set(&result));

    let expected = HashSet::from([0, 1, 2]);
    let result = get_descendants(&dag, &[0]);
    assert_eq!(expected, to_set(&result));

    // 0 -> 1 -> 2 ----> 3
    //           ^       ^
    //            \_   _/
    //               4
    let v_dag = vec![
        vec![0, 1, 0, 0, 0], //
        vec![0, 0, 1, 0, 0],
        vec![0, 0, 0, 1, 0],
        vec![0, 0, 0, 0, 0],
        vec![0, 0, 1, 1, 0],
    ];
    let dag = PDAG::from_row_to_col_vecvec(v_dag).unwrap();

    let expected = HashSet::from([2, 3]);
    let result = get_descendants(&dag, &[2]);
    assert_eq!(expected, to_set(&result));

    let expected = HashSet::from([0, 1, 2, 3]);
    let result = get_descendants(&dag, &[0, 1]);
    assert_eq!(expected, to_set(&result));

    let expected = HashSet::from([2, 3, 4]);
    let result = get_descendants(&dag, &[4]);
    assert_eq!(expected, to_set(&result));

    let expected = HashSet::from([3]);
    let result = get_descendants(&dag, &[3]);
    assert_eq!(expected, to_set(&result));
}

#[test]
fn parents() {
    // 0 -> 1 -> 2
    let v_dag = vec![
        vec![0, 1, 0], //
        vec![0, 0, 1],
        vec![0, 0, 0],
    ];
    let dag = PDAG::from_row_to_col_vecvec(v_dag).unwrap();

    let result = get_parents(&dag, &[0]);
    let expected = HashSet::from([]);
    assert_eq!(expected, to_set(&result));

    let result = get_parents(&dag, &[1]);
    let expected = HashSet::from([0]);
    assert_eq!(expected, to_set(&result));

    let result = get_parents(&dag, &[0, 2]);
    let expected = HashSet::from([1]);
    assert_eq!(expected, to_set(&result));

    let result = get_parents(&dag, &[2]);
    let expected = HashSet::from([1]);
    assert_eq!(expected, to_set(&result));

    // 0 -> 1 -> 2 ----> 3
    //           ^       ^
    //            \_   _/
    //               4
    let v_dag = vec![
        vec![0, 1, 0, 0, 0], //
        vec![0, 0, 1, 0, 0],
        vec![0, 0, 0, 1, 0],
        vec![0, 0, 0, 0, 0],
        vec![0, 0, 1, 1, 0],
    ];
    let dag = PDAG::from_row_to_col_vecvec(v_dag).unwrap();

    let result = get_parents(&dag, &[4]);
    let expected = HashSet::from([]);
    assert_eq!(expected, to_set(&result));

    let result = get_parents(&dag, &[2]);
    let expected = HashSet::from([1, 4]);
    assert_eq!(expected, to_set(&result));

    let result = get_parents(&dag, &[1, 3]);
    let expected = HashSet::from([0, 2, 4]);
    assert_eq!(expected, to_set(&result));
}

#[test]
fn children() {
    // 0 -> 1 -> 2
    let v_dag = vec![
        vec![0, 1, 0], //
        vec![0, 0, 1],
        vec![0, 0, 0],
    ];
    let dag = PDAG::from_row_to_col_vecvec(v_dag).unwrap();

    let result = get_children(&dag, &[0]);
    let expected = HashSet::from([1]);
    assert_eq!(expected, to_set(&result));

    let result = get_children(&dag, &[1]);
    let expected = HashSet::from([2]);
    assert_eq!(expected, to_set(&result));

    let result = get_children(&dag, &[0, 2]);
    let expected = HashSet::from([1]);
    assert_eq!(expected, to_set(&result));

    let result = get_children(&dag, &[2]);
    let expected = HashSet::from([]);
    assert_eq!(expected, to_set(&result));

    // 0 -> 1 -> 2 ----> 3
    //           ^       ^
    //            \_   _/
    //               4
    let v_dag = vec![
        vec![0, 1, 0, 0, 0], //
        vec![0, 0, 1, 0, 0],
        vec![0, 0, 0, 1, 0],
        vec![0, 0, 0, 0, 0],
        vec![0, 0, 1, 1, 0],
    ];
    let dag = PDAG::from_row_to_col_vecvec(v_dag).unwrap();

    let result = get_children(&dag, &[4]);
    let expected = HashSet::from([2, 3]);
    assert_eq!(expected, to_set(&result));

    let result = get_children(&dag, &[0, 4]);
    let expected = HashSet::from([1, 2, 3]);
    assert_eq!(expected, to_set(&result));

    let result = get_children(&dag, &[0, 1, 2]);
    let expected = HashSet::from([1, 2, 3]);
    assert_eq!(expected, to_set(&result));
}

#[test]
fn proper_ancestors() {
    // 0 -> 1 -> 2
    let v_dag = vec![
        vec![0, 1, 0], //
        vec![0, 0, 1],
        vec![0, 0, 0],
    ];
    let dag = PDAG::from_row_to_col_vecvec(v_dag).unwrap();

    let result = get_proper_ancestors(&dag, &[], &[2]);
    let expected = HashSet::from([0, 1, 2]);
    assert_eq!(expected, to_set(&result));

    let result = get_proper_ancestors(&dag, &[1], &[2]);
    let expected = HashSet::from([2]);
    assert_eq!(expected, to_set(&result));

    let result = get_proper_ancestors(&dag, &[0], &[2]);
    let expected = HashSet::from([1, 2]);
    assert_eq!(expected, to_set(&result));

    // 0 -> 1 -> 3 and 0 -> 2 -> 3
    let v_dag = vec![
        vec![0, 1, 1, 0], //
        vec![0, 0, 0, 1],
        vec![0, 0, 0, 1],
        vec![0, 0, 0, 0],
    ];
    let dag = PDAG::from_row_to_col_vecvec(v_dag).unwrap();

    let result = get_proper_ancestors(&dag, &[], &[3]);
    let expected = HashSet::from([0, 1, 2, 3]);
    assert_eq!(expected, to_set(&result));

    let result = get_proper_ancestors(&dag, &[1], &[3]);
    let expected = HashSet::from([0, 2, 3]);
    assert_eq!(expected, to_set(&result));

    // 0 -> 1 -> 2 -> 4 and 0 -> 3 -> 4
    let v_dag = vec![
        vec![0, 1, 0, 1, 0], //
        vec![0, 0, 1, 0, 0],
        vec![0, 0, 0, 0, 1],
        vec![0, 0, 0, 0, 1],
        vec![0, 0, 0, 0, 0],
    ];
    let dag = PDAG::from_row_to_col_vecvec(v_dag).unwrap();

    let result = get_proper_ancestors(&dag, &[], &[4]);
    let expected = HashSet::from([0, 1, 2, 3, 4]);
    assert_eq!(expected, to_set(&result));

    let result = get_proper_ancestors(&dag, &[2], &[4]);
    let expected = HashSet::from([0, 3, 4]);
    assert_eq!(expected, to_set(&result));

    let result = get_proper_ancestors(&dag, &[1], &[4]);
    let expected = HashSet::from([0, 2, 3, 4]);
    assert_eq!(expected, to_set(&result));
}
