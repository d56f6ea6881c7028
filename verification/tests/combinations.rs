use crossword_layout::combinations::{get_combinations, set_remaining_options};
use factorial::Factorial;

#[test]
fn test_get_combinations() {
    let n = 6;
    let combinations = get_combinations(n);

    assert_eq!(n.factorial(), combinations.len());

    for combination in &combinations {
        assert_eq!(n, combination.len());
        for m in 0..n {
            assert!(combination.contains(&m));
        }
    }

    for i in 0..combinations.len() {
        for j in i+1..combinations.len() {
            assert!(!combinations[i].eq(&combinations[j]));
        }
    }
}

#[test]
fn test_get_combinations_3() {
    let combinations = get_combinations(3);

    assert!(combinations.contains(&vec![0,1,2]));
    assert!(combinations.contains(&vec![0,2,1]));
    assert!(combinations.contains(&vec![1,0,2]));
    assert!(combinations.contains(&vec![1,2,0]));
    assert!(combinations.contains(&vec![2,0,1]));
    assert!(combinations.contains(&vec![2,1,0]));
}

#[test]
fn combinations_come_in_order_of_positions() {
    assert_eq!(
        vec![
            vec![0, 1, 2],
            vec![0, 2, 1],
            vec![1, 0, 2],
            vec![2, 0, 1],
            vec![1, 2, 0],
            vec![2, 1, 0],
        ],
        get_combinations(3)
    );
    assert_eq!(vec![vec![0, 1], vec![1, 0]], get_combinations(2));
}

#[test]
fn fewer_than_two_words_have_no_combinations() {
    assert!(get_combinations(0).is_empty());
    assert!(get_combinations(1).is_empty());
}

#[test]
fn remaining_options_fill_free_positions() {
    let mut orderings = vec![vec![9, 9, 9]];
    set_remaining_options(3, 1, vec![3, 0, 3], &mut orderings);
    assert_eq!(vec![vec![9, 9, 9], vec![1, 0, 2], vec![2, 0, 1]], orderings);

    let mut orderings = vec![];
    set_remaining_options(3, 2, vec![1, 0, 3], &mut orderings);
    assert_eq!(vec![vec![1, 0, 2]], orderings);

    let mut orderings = vec![];
    set_remaining_options(2, 1, vec![0, 1], &mut orderings);
    assert!(orderings.is_empty());
}

#[test]
fn combinations_count_is_the_factorial() {
    assert_eq!(24, get_combinations(4).len());
    assert_eq!(4usize.factorial(), get_combinations(4).len());
    assert_eq!(120, get_combinations(5).len());
}
