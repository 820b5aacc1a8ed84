use guess_engine::comb_utils::{increase_vector, next_permutation, try_increase};

#[test]
fn test_permutation1() {
    let mut a = [1];
    assert!(!next_permutation(&mut a));
}

#[test]
fn test_permutation2() {
    let mut a = [1, 2];
    assert!(next_permutation(&mut a));
    assert_eq!(a, [2, 1]);
    assert!(!next_permutation(&mut a));
}

#[test]
fn test_permutation3() {
    let mut a = [1, 1];
    assert!(!next_permutation(&mut a));
}

#[test]
fn test_permutation4() {
    let mut a = [1, 2, 3];

    assert!(next_permutation(&mut a));
    assert_eq!(a, [1, 3, 2]);

    assert!(next_permutation(&mut a));
    assert_eq!(a, [2, 1, 3]);

    assert!(next_permutation(&mut a));
    assert_eq!(a, [2, 3, 1]);

    assert!(next_permutation(&mut a));
    assert_eq!(a, [3, 1, 2]);

    assert!(next_permutation(&mut a));
    assert_eq!(a, [3, 2, 1]);

    assert!(!next_permutation(&mut a));
}

#[test]
fn test_permutation5() {
    let mut a = [1, 2, 2];
    assert!(next_permutation(&mut a));
    assert_eq!(a, [2, 1, 2]);

    assert!(next_permutation(&mut a));
    assert_eq!(a, [2, 2, 1]);

    assert!(!next_permutation(&mut a));
}

#[test]
fn test_permutation6() {
    let mut a = [1, 1, 2];
    assert!(next_permutation(&mut a));
    assert_eq!(a, [1, 2, 1]);

    assert!(next_permutation(&mut a));
    assert_eq!(a, [2, 1, 1]);

    assert!(!next_permutation(&mut a));
}

#[test]
fn test_permutation7() {
    let mut a = [1, 1, 1];
    assert!(!next_permutation(&mut a));
}

fn check_permutation_walk() {
    {
        let mut a = [4];
        assert!(!next_permutation(&mut a));
    }
    {
        let mut a = [1, 2];
        assert!(next_permutation(&mut a));
        assert_eq!(a, [2, 1]);
        assert!(!next_permutation(&mut a));
    }
    {
        let mut a = [1, 2, 3];
        assert!(next_permutation(&mut a));
        assert_eq!(a, [1, 3, 2]);
        assert!(next_permutation(&mut a));
        assert_eq!(a, [2, 1, 3]);
        assert!(next_permutation(&mut a));
        assert_eq!(a, [2, 3, 1]);
        assert!(next_permutation(&mut a));
        assert_eq!(a, [3, 1, 2]);
        assert!(next_permutation(&mut a));
        assert_eq!(a, [3, 2, 1]);
        assert!(!next_permutation(&mut a));
    }
    {
        let mut counter = 0;
        let mut a = [1, 2, 3, 4];
        loop {
            counter += 1;
            if counter > 30 {
                panic!("It seems this is an infinite loop");
            }
            if !next_permutation(&mut a) {
                break;
            }
        }
        assert_eq!(counter, 24);
    }
}

#[test]
fn game_params_test_permutation() {
    check_permutation_walk();
}

#[test]
fn game_utils_test_permutation() {
    check_permutation_walk();
}

#[test]
fn test_permutation_rep() {
    {
        let mut a = [0, 0, 1];
        assert!(next_permutation(&mut a));
        assert_eq!(a, [0, 1, 0]);
        assert!(next_permutation(&mut a));
        assert_eq!(a, [1, 0, 0]);
        assert!(!next_permutation(&mut a));
    }
    {
        let mut a = [0, 0, 1, 1];
        assert!(next_permutation(&mut a));
        assert_eq!(a, [0, 1, 0, 1]);
        assert!(next_permutation(&mut a));
        assert_eq!(a, [0, 1, 1, 0]);
        assert!(next_permutation(&mut a));
        assert_eq!(a, [1, 0, 0, 1]);
        assert!(next_permutation(&mut a));
        assert_eq!(a, [1, 0, 1, 0]);
        assert!(next_permutation(&mut a));
        assert_eq!(a, [1, 1, 0, 0]);
        assert!(!next_permutation(&mut a));
    }
}

fn check_increase_vector() {
    {
        let mut a = [5];
        assert!(increase_vector(&mut a, 7));
        assert_eq!(a[0], 6);
        assert!(!increase_vector(&mut a, 6));
    }
    {
        let mut a = [8, 9];
        assert!(increase_vector(&mut a, 9));
        assert_eq!(a, [9, 0]);
        a[1] = 8;
        assert!(increase_vector(&mut a, 9));
        assert_eq!(a, [9, 9]);
        assert!(!increase_vector(&mut a, 9));
    }
}

#[test]
fn game_params_test_increase_vector() {
    check_increase_vector();
}

#[test]
fn game_utils_test_increase_vector() {
    check_increase_vector();
}

#[test]
fn test_increase_1() {
    let mut arr = [1, 2, 3];
    assert!(try_increase(&mut arr, 4));
    assert_eq!(arr, [1, 2, 4]);
}

#[test]
fn test_increase_2() {
    let mut arr = [1, 2, 3];
    assert!(!try_increase(&mut arr, 3));
}

#[test]
fn test_increase_3() {
    let mut arr = [1, 3, 4];
    assert!(try_increase(&mut arr, 4));
    assert_eq!(arr, [2, 3, 4]);
    assert!(!try_increase(&mut arr, 4));
}

#[test]
fn increase_vector_rolls_over_to_zeros() {
    let mut a = [2, 2, 2];
    assert!(!increase_vector(&mut a, 2));
    assert_eq!(a, [0, 0, 0]);
    let mut empty: [u8; 0] = [];
    assert!(!increase_vector(&mut empty, 0));
}

#[test]
fn increase_vector_carries() {
    let mut a = [0, 1, 1];
    assert!(increase_vector(&mut a, 1));
    assert_eq!(a, [1, 0, 0]);
}

#[test]
fn try_increase_walks_all_combinations() {
    let mut arr = [0, 1];
    let mut seen = vec![arr.to_vec()];
    while try_increase(&mut arr, 3) {
        seen.push(arr.to_vec());
    }
    assert_eq!(
        seen,
        vec![vec![0, 1], vec![0, 2], vec![0, 3], vec![1, 2], vec![1, 3], vec![2, 3]]
    );
}

#[test]
fn try_increase_of_the_single_smallest() {
    let mut arr = [0];
    assert!(!try_increase(&mut arr, 0));
    assert_eq!(arr, [0]);
    let mut none: [usize; 0] = [];
    assert!(!try_increase(&mut none, 5));
}

#[test]
fn next_permutation_keeps_the_symbols() {
    let mut a = [3, 1, 2, 2];
    let mut sorted_before = a.to_vec();
    sorted_before.sort();
    assert!(next_permutation(&mut a));
    assert_eq!(a, [3, 2, 1, 2]);
    let mut sorted_after = a.to_vec();
    sorted_after.sort();
    assert_eq!(sorted_before, sorted_after);
}

#[test]
fn next_permutation_walks_every_arrangement_in_order() {
    let mut a = [0u8, 0, 1, 2, 2];
    let mut seen = vec![a.to_vec()];
    while next_permutation(&mut a) {
        // each arrangement is greater than the one before
        assert!(seen.last().unwrap().as_slice() < &a[..]);
        seen.push(a.to_vec());
    }
    // 5! / (2! 2!) arrangements, and the last one is left as it is
    assert_eq!(seen.len(), 30);
    assert_eq!(a, [2, 2, 1, 0, 0]);
    let distinct: std::collections::HashSet<_> = seen.iter().collect();
    assert_eq!(distinct.len(), 30);
}

#[test]
fn increase_vector_counts_through_every_reading() {
    let mut a = [0u8, 0, 0];
    let mut count = 1;
    while increase_vector(&mut a, 3) {
        count += 1;
        let value = a.iter().fold(0u32, |acc, d| acc * 4 + *d as u32);
        assert_eq!(value, count - 1);
    }
    assert_eq!(count, 64);
    assert_eq!(a, [0, 0, 0]);
}

#[test]
fn increase_vector_treats_a_digit_above_the_maximum_as_any_other() {
    let mut a = [9u8, 2];
    assert!(increase_vector(&mut a, 2));
    assert_eq!(a, [10, 0]);
}
