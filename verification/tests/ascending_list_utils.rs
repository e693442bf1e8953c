use gadjid::ascending_lists_first_shared_element;
use gadjid::ascending_lists_set_symmetric_difference;
use gadjid::ascending_lists_set_union;

#[test]
fn first_shared() {
    assert!(ascending_lists_first_shared_element(&[], &[]).is_none());
    assert!(ascending_lists_first_shared_element(&[1], &[]).is_none());
    assert!(ascending_lists_first_shared_element(&[1, 2], &[]).is_none());
    assert!(ascending_lists_first_shared_element(&[1, 2], &[3, 4]).is_none());
    assert!(ascending_lists_first_shared_element(&[1, 2, 5], &[3, 4, 5]) == Some(5));
    assert!(ascending_lists_first_shared_element(&[1, 2, 5], &[3, 4, 5, 10]) == Some(5));
}

#[test]
fn symmetric_difference_test() {
    let res = ascending_lists_set_symmetric_difference(&[1, 2, 4, 6], &[0, 0, 1, 2, 3, 5, 6, 7]);
    assert_eq!([0, 3, 4, 5, 7], res.as_slice());
}

#[test]
fn set_union_test() {
    let res = ascending_lists_set_union(&[1, 2, 4, 6], &[0, 1, 2, 3, 5, 6, 7]);
    assert_eq!([0, 1, 2, 3, 4, 5, 6, 7], res.as_slice());
}
