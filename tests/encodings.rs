use cube_solver::coordutils::{
    coord_to_flip, coord_to_permutation, coord_to_permutation_even_parity, coord_to_piece_distribution,
    coord_to_twist, flip_to_coord, get_perm_for_distribution_coord, is_even_parity, permutation_to_coord,
    permutation_to_coord_even_parity, piece_distibution_to_coord, twist_to_coord,
};
use cube_solver::mathutils::{binomial, factorial};
use cube_solver::rawcube::{Flip, Twist};

#[test]
fn all_bad_and_all_good_flips() {
    for n in 1..=12 {
        assert_eq!(flip_to_coord(&vec![Flip::Bad; n]), (1 << n) - 1);
        assert_eq!(flip_to_coord(&vec![Flip::Good; n]), 0);
    }
}

#[test]
fn all_anticlockwise_twists() {
    assert_eq!(twist_to_coord(&[Twist::ACW; 8]), 6560);
    assert_eq!(twist_to_coord(&[Twist::ACW; 7]), 2186);
}

#[test]
fn reversed_permutation_is_the_last_coordinate() {
    for n in 1..=12 {
        let perm: Vec<usize> = (0..n).rev().collect();
        assert_eq!(permutation_to_coord(&perm), factorial(n) - 1);
    }
}

#[test]
fn reversed_even_permutation_is_the_last_coordinate() {
    for n in [4usize, 6, 8, 10, 12] {
        let perm: Vec<usize> = (0..n).rev().collect();
        assert_eq!(permutation_to_coord_even_parity(&perm), factorial(n) / 2 - 1);
    }
}

#[test]
fn identity_and_adjacent_transpositions() {
    for n in 2..=12 {
        let identity: Vec<usize> = (0..n).collect();
        assert_eq!(permutation_to_coord(&identity), 0);
        for i in 0..n - 1 {
            let mut swapped = identity.clone();
            swapped.swap(i, i + 1);
            assert!(!is_even_parity(&swapped));
            if i == 0 {
                assert_eq!(permutation_to_coord(&swapped), 1);
            }
        }
    }
}

#[test]
fn distributions_at_either_end() {
    for total in 1..=12 {
        for k in 1..=total {
            let mut low = vec![false; total];
            let mut high = vec![false; total];
            for i in 0..k {
                low[i] = true;
                high[total - 1 - i] = true;
            }
            assert_eq!(piece_distibution_to_coord(&low), 0);
            assert_eq!(piece_distibution_to_coord(&high), binomial(total, k) - 1);
        }
    }
}

#[test]
fn encodings_round_trip() {
    for c in 0..2048 {
        assert_eq!(flip_to_coord(&coord_to_flip(c, 11)), c);
    }
    for c in 0..2187 {
        assert_eq!(twist_to_coord(&coord_to_twist(c, 7)), c);
    }
    for c in 0..40320 {
        assert_eq!(permutation_to_coord(&coord_to_permutation(c, 8)), c);
    }
    for c in 0..20160 {
        let perm = coord_to_permutation_even_parity(c, 8);
        assert!(is_even_parity(&perm));
        assert_eq!(permutation_to_coord_even_parity(&perm), c);
    }
    for c in 0..495 {
        assert_eq!(piece_distibution_to_coord(&coord_to_piece_distribution(c, 12, 4)), c);
    }
}

#[test]
fn distribution_merges_pieces_in_order() {
    let merged = get_perm_for_distribution_coord(1, &[10usize, 11], &[20usize, 21]);
    assert_eq!(merged, vec![10, 20, 11, 21]);
    assert_eq!(get_perm_for_distribution_coord(0, &[10usize, 11], &[20usize, 21]), vec![10, 11, 20, 21]);
}

#[test]
fn factorials_and_binomials() {
    assert_eq!(factorial(0), 1);
    assert_eq!(factorial(8), 40320);
    assert_eq!(factorial(12), 479001600);
    assert_eq!(binomial(12, 4), 495);
    assert_eq!(binomial(8, 4), 70);
    assert_eq!(binomial(3, 5), 0);
}
