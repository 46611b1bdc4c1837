use parent_tree::seq_util::{_exhaust, except, except_single, exhaust, til, WalkError};

#[test]
fn test_except_with_first_element_removed() {
    let a = vec![1, 2, 3, 4, 5];
    let result = except(a.clone(), vec![a[0]]);
    assert_eq!(result, vec![2, 3, 4, 5]);
}

#[test]
fn test_except_with_different_vector() {
    let a = vec![1, 2, 3, 4, 5];
    let b = vec![2, 5, 30];
    let result = except(a, b);
    assert_eq!(result, vec![1, 3, 4]);
}

#[test]
fn except_keeps_order_and_duplicates() {
    let result = except(vec![4, 1, 4, 2, 1, 3], vec![1, 1, 9]);
    assert_eq!(result, vec![4, 4, 2, 3]);
    // 6 elements, 2 of them match something in the second vector
    assert_eq!(result.len(), 6 - 2);
}

#[test]
fn except_with_empty_inputs() {
    assert_eq!(except(Vec::<u32>::new(), vec![1, 2]), Vec::<u32>::new());
    assert_eq!(except(vec![3, 1], Vec::new()), vec![3, 1]);
    assert_eq!(except(vec![3, 3], vec![3]), Vec::<i32>::new());
}

#[test]
fn except_single_drops_every_copy() {
    assert_eq!(except_single(vec![1, 2, 1, 3, 1], 1), vec![2, 3]);
    assert_eq!(except_single(vec![1, 2, 3], 7), vec![1, 2, 3]);
    assert_eq!(except_single(Vec::<u8>::new(), 7), Vec::<u8>::new());
}

#[test]
fn til_lists_ids_below() {
    assert_eq!(til(0), Vec::<usize>::new());
    assert_eq!(til(4), vec![0, 1, 2, 3]);
}

#[test]
fn exhaust_follows_chain_to_fixed_point() {
    let table: Vec<usize> = vec![0, 0, 1, 2];
    assert_eq!(exhaust(&table, 3), Ok(vec![2, 1, 0]));
    assert_eq!(exhaust(&table, 0), Ok(vec![]));
}

#[test]
fn exhaust_reports_out_of_bounds() {
    let table: Vec<usize> = vec![0, 7, 1];
    assert_eq!(exhaust(&table, 2), Err(WalkError::OutOfBounds(7)));
    assert_eq!(exhaust(&table, 3), Err(WalkError::OutOfBounds(3)));
    assert_eq!(exhaust(&Vec::new(), 0), Err(WalkError::OutOfBounds(0)));
}

#[test]
fn exhaust_reports_cycle() {
    let table: Vec<usize> = vec![1, 2, 0, 0];
    assert_eq!(exhaust(&table, 3), Err(WalkError::Cycle));
    assert_eq!(exhaust(&table, 0), Err(WalkError::Cycle));
}

#[test]
fn canonical_walk_moves_to_first_equal_element() {
    let x = vec!['a', 'b', 'a', 'b', 'c'];
    assert_eq!(_exhaust(x.clone(), 2), vec![0]);
    assert_eq!(_exhaust(x.clone(), 3), vec![1]);
    assert_eq!(_exhaust(x.clone(), 0), Vec::<usize>::new());
    assert_eq!(_exhaust(x.clone(), 4), Vec::<usize>::new());
    assert_eq!(_exhaust(x, 9), Vec::<usize>::new());
}
