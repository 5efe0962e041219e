use search::derank::derank;
use search::derank::derank_2;
use search::derank::derank_8;
use search::derank::linear_min_index;

#[test]
fn verify_02() {
    let a = vec![0u8, 1u8];
    assert_eq!(derank(&a), linear_min_index(&a));
}

#[test]
fn verify_03() {
    let a = vec![0u8, 1u8, 2u8];
    assert_eq!(derank(&a), linear_min_index(&a));
}

#[test]
fn verify_04() {
    let a = vec![0u8, 1u8, 3u8, 2u8];
    assert_eq!(derank(&a), linear_min_index(&a));
}

#[test]
fn verify_05() {
    let a = vec![1u8, 0u8, 4u8, 3u8, 2u8];
    assert_eq!(derank(&a), linear_min_index(&a));
}

#[test]
fn verify_06() {
    let a = vec![1u8, 5u8, 0u8, 4u8, 3u8, 2u8];
    assert_eq!(derank(&a), linear_min_index(&a));
}

#[test]
fn verify_07() {
    let a = vec![1u8, 5u8, 0u8, 4u8, 6u8, 3u8, 2u8];
    assert_eq!(derank(&a), linear_min_index(&a));
}

#[test]
fn verify_08() {
    let a = vec![1u8, 5u8, 0u8, 4u8, 6u8, 3u8, 7u8, 2u8];
    assert_eq!(derank(&a), linear_min_index(&a));
}

#[test]
fn verify_16() {
    let a = vec![
        1u8, 5u8, 0u8, 5u8, 0u8, 4u8, 4u8, 6u8, 3u8, 7u8, 2u8, 1u8, 6u8, 3u8, 7u8, 2u8,
    ];
    assert_eq!(derank(&a), linear_min_index(&a));
}

#[test]
fn derank_ties_pick_the_first() {
    let a = vec![3u32, 1, 2, 1, 1, 5, 1, 9];
    assert_eq!(derank_8(&a), 1);
    assert_eq!(linear_min_index(&a), 1);
    assert_eq!(derank_2(&[7u64, 7u64]), 0);
}

#[test]
fn derank_single_and_last() {
    assert_eq!(derank(&[42u8]), 0);
    let a = vec![9u8, 8, 7, 6, 5, 4, 3];
    assert_eq!(derank(&a), 6);
}
