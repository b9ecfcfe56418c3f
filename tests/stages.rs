use r6r6::stages::{chunk, fold_sum, keep_even, squares};

#[test]
fn chunk_fifteen_by_four() {
    let data: Vec<i32> = (1..=15).collect();
    let groups = chunk(&data, 4);
    let sizes: Vec<usize> = groups.iter().map(|g| g.len()).collect();
    assert_eq!(sizes, vec![4, 4, 4, 3]);
    assert_eq!(groups[3], vec![13, 14, 15]);
    assert_eq!(groups.concat(), data);
}

#[test]
fn chunk_edge_cases() {
    assert!(chunk(&vec![], 4).is_empty());
    assert_eq!(chunk(&vec![1, 2, 3, 4], 4), vec![vec![1, 2, 3, 4]]);
    assert_eq!(chunk(&vec![1, 2, 3], 1), vec![vec![1], vec![2], vec![3]]);
    assert_eq!(chunk(&vec![1, 2], 5), vec![vec![1, 2]]);
}

#[test]
fn fold_one_to_ten_is_55_in_any_order() {
    let data: Vec<i32> = (1..=10).collect();
    assert_eq!(fold_sum(&data, 0), 55);
    let shuffled = vec![3, 1, 2, 6, 4, 5, 9, 7, 8, 10];
    assert_eq!(fold_sum(&shuffled, 0), 55);
    let reversed: Vec<i32> = (1..=10).rev().collect();
    assert_eq!(fold_sum(&reversed, 0), 55);
}

#[test]
fn fold_does_not_overflow_i32() {
    assert_eq!(fold_sum(&vec![i32::MAX, i32::MAX], i32::MAX), 3 * i32::MAX as i64);
    assert_eq!(fold_sum(&vec![i32::MIN, i32::MIN], 5), 2 * i32::MIN as i64 + 5);
    assert_eq!(fold_sum(&vec![], 7), 7);
}

#[test]
fn squares_then_evens() {
    let data: Vec<i32> = (1..=20).collect();
    let sq = squares(&data);
    assert_eq!(sq[19], 400);
    assert_eq!(squares(&vec![i32::MIN]), vec![4_611_686_018_427_387_904]);
    assert_eq!(
        keep_even(&sq),
        vec![4, 16, 36, 64, 100, 144, 196, 256, 324, 400]
    );
    assert_eq!(keep_even(&vec![-3, -2, 0, 7]), vec![-2, 0]);
}
