use cube_solver::coordutils::{
    coord_to_flip, coord_to_permutation, coord_to_permutation_even_parity, coord_to_piece_distribution,
    coord_to_twist, flip_to_coord, is_even_parity, permutation_to_coord, permutation_to_coord_even_parity,
    piece_distibution_to_coord, twist_to_coord,
};
use cube_solver::rawcube::{Flip, Twist};

#[test]
fn test_flip_to_coord() {
    let state = &[Flip::Good, Flip::Good, Flip::Good];
    assert_eq!(flip_to_coord(state), 0);

    let state = &[Flip::Bad, Flip::Good, Flip::Good];
    assert_eq!(flip_to_coord(state), 1);

    let state = &[Flip::Good, Flip::Bad, Flip::Good];
    assert_eq!(flip_to_coord(state), 2);

    let state = &[Flip::Bad; 12];
    assert_eq!(flip_to_coord(state), 4095);
}

#[test]
fn test_coord_to_flip() {
    let coord = 0;
    let num_pieces = 3;
    let expected = &[Flip::Good, Flip::Good, Flip::Good];
    assert_eq!(coord_to_flip(coord, num_pieces), expected);

    let coord = 1;
    let num_pieces = 3;
    let expected = &[Flip::Bad, Flip::Good, Flip::Good];
    assert_eq!(&coord_to_flip(coord, num_pieces), expected);

    let coord = 2;
    let num_pieces = 3;
    let expected = &[Flip::Good, Flip::Bad, Flip::Good];
    assert_eq!(&coord_to_flip(coord, num_pieces), expected);

    let coord = 4095;
    let num_pieces = 12;
    let expected = &[Flip::Bad; 12];
    assert_eq!(&coord_to_flip(coord, num_pieces), expected);
}

#[test]
fn test_twist_to_coord() {
    let state = &[Twist::Zero, Twist::Zero, Twist::Zero];
    assert_eq!(twist_to_coord(state), 0);

    let state = &[Twist::CW, Twist::Zero, Twist::Zero];
    assert_eq!(twist_to_coord(state), 1);

    let state = &[Twist::ACW, Twist::Zero, Twist::Zero];
    assert_eq!(twist_to_coord(state), 2);

    let state = &[Twist::Zero, Twist::CW, Twist::Zero];
    assert_eq!(twist_to_coord(state), 3);

    let state = &[Twist::ACW; 8];
    assert_eq!(twist_to_coord(state), 6560);
}

#[test]
fn test_coord_to_twist() {
    let coord = 0;
    let num_pieces = 3;
    let expected = &[Twist::Zero, Twist::Zero, Twist::Zero];
    assert_eq!(&coord_to_twist(coord, num_pieces), expected);

    let coord = 1;
    let num_pieces = 3;
    let expected = &[Twist::CW, Twist::Zero, Twist::Zero];
    assert_eq!(&coord_to_twist(coord, num_pieces), expected);

    let coord = 2;
    let num_pieces = 3;
    let expected = &[Twist::ACW, Twist::Zero, Twist::Zero];
    assert_eq!(&coord_to_twist(coord, num_pieces), expected);

    let coord = 3;
    let num_pieces = 3;
    let expected = &[Twist::Zero, Twist::CW, Twist::Zero];
    assert_eq!(&coord_to_twist(coord, num_pieces), expected);

    let coord = 6560;
    let num_pieces = 8;
    let expected = &[Twist::ACW; 8];
    assert_eq!(&coord_to_twist(coord, num_pieces), expected);
}

#[test]
fn test_permutation_to_coord() {
    assert_eq!(permutation_to_coord(&[0,1,2]), 0);
    assert_eq!(permutation_to_coord(&[1,0,2]), 1);
    assert_eq!(permutation_to_coord(&[0,2,1]), 2);
    assert_eq!(permutation_to_coord(&[2,0,1]), 3);
    assert_eq!(permutation_to_coord(&[1,2,0]), 4);
    assert_eq!(permutation_to_coord(&[2,1,0]), 5);

    assert_eq!(permutation_to_coord(&[0,1,2,3,4,5,6,7]), 0);
    assert_eq!(permutation_to_coord(&[1,0,2,3,4,5,6,7]), 1);
    assert_eq!(permutation_to_coord(&[0,1,2,3,4,5,7,6]), 5_040);
    assert_eq!(permutation_to_coord(&[7,6,5,4,3,2,1,0]), 40_319);

    assert_eq!(permutation_to_coord(&[0,1,2,3,4,5,6,7,8,9,10,11]), 0);
    assert_eq!(permutation_to_coord(&[1,0,2,3,4,5,6,7,8,9,10,11]), 1);
    assert_eq!(permutation_to_coord(&[0,1,2,3,4,5,6,7,8,9,11,10]), 39_916_800);
    assert_eq!(permutation_to_coord(&[11,10,9,8,7,6,5,4,3,2,1,0]), 479_001_599);
}

#[test]
fn test_coord_to_permutation() {
    let expected = &[0,1,2];
    assert_eq!(&coord_to_permutation(0, 3), expected);
    let expected = &[1,0,2];
    assert_eq!(&coord_to_permutation(1, 3), expected);
    let expected = &[0,2,1];
    assert_eq!(&coord_to_permutation(2, 3), expected);
    let expected = &[2,0,1];
    assert_eq!(&coord_to_permutation(3, 3), expected);
    let expected = &[1,2,0];
    assert_eq!(&coord_to_permutation(4, 3), expected);
    let expected = &[2,1,0];
    assert_eq!(&coord_to_permutation(5, 3), expected);

    let expected = &[0,1,2,3,4,5,6,7];
    assert_eq!(&coord_to_permutation(0, 8), expected);
    let expected = &[7,6,5,4,3,2,1,0];
    assert_eq!(&coord_to_permutation(40_319, 8), expected);

    let expected = &[0,1,2,3,4,5,6,7,8,9,10,11];
    assert_eq!(&coord_to_permutation(0, 12), expected);
    let expected = &[11,10,9,8,7,6,5,4,3,2,1,0];
    assert_eq!(&coord_to_permutation(479_001_599, 12), expected);
}

#[test]
fn test_permutation_to_coord_even_parity() {
    assert_eq!(permutation_to_coord_even_parity(&[0,1,2]), 0);
    assert_eq!(permutation_to_coord_even_parity(&[1,0,2]), 0);
    assert_eq!(permutation_to_coord_even_parity(&[0,2,1]), 1);
    assert_eq!(permutation_to_coord_even_parity(&[2,0,1]), 1);
    assert_eq!(permutation_to_coord_even_parity(&[1,2,0]), 2);
    assert_eq!(permutation_to_coord_even_parity(&[2,1,0]), 2);

    assert_eq!(permutation_to_coord_even_parity(&[0,1,2,3,4,5,6,7]), 0);
    assert_eq!(permutation_to_coord_even_parity(&[1,0,2,3,4,5,6,7]), 0);
    assert_eq!(permutation_to_coord_even_parity(&[0,1,2,3,4,5,7,6]), 2_520);
    assert_eq!(permutation_to_coord_even_parity(&[7,6,5,4,3,2,1,0]), 20_159);

    assert_eq!(permutation_to_coord_even_parity(&[0,1,2,3,4,5,6,7,8,9,10,11]), 0);
    assert_eq!(permutation_to_coord_even_parity(&[1,0,2,3,4,5,6,7,8,9,10,11]), 0);
    assert_eq!(permutation_to_coord_even_parity(&[0,1,2,3,4,5,6,7,8,9,11,10]), 19_958_400);
    assert_eq!(permutation_to_coord_even_parity(&[11,10,9,8,7,6,5,4,3,2,1,0]), 239_500_799);
}

#[test]
fn test_coord_to_permutation_even_parity() {
    let expected = &[0,1,2];
    assert_eq!(&coord_to_permutation_even_parity(0, 3), expected);
    let expected = &[2,0,1];
    assert_eq!(&coord_to_permutation_even_parity(1, 3), expected);
    let expected = &[1,2,0];
    assert_eq!(&coord_to_permutation_even_parity(2, 3), expected);

    let expected = &[0,1,2,3,4,5,6,7];
    assert_eq!(&coord_to_permutation_even_parity(0, 8), expected);
    let expected = &[7,6,5,4,3,2,1,0];
    assert_eq!(&coord_to_permutation_even_parity(20_159, 8), expected);

    let expected = &[0,1,2,3,4,5,6,7,8,9,10,11];
    assert_eq!(&coord_to_permutation_even_parity(0, 12), expected);
    let expected = &[11,10,9,8,7,6,5,4,3,2,1,0];
    assert_eq!(&coord_to_permutation_even_parity(239_500_799, 12), expected);
}

#[test]
fn test_piece_distibution_to_coord() {
    assert_eq!(piece_distibution_to_coord(&[true, false, false]), 0);
    assert_eq!(piece_distibution_to_coord(&[false, true, false]), 1);
    assert_eq!(piece_distibution_to_coord(&[false, false, true]), 2);

    assert_eq!(piece_distibution_to_coord(&[true, true, false, false]), 0);
    assert_eq!(piece_distibution_to_coord(&[true, false, true, false]), 1);
    assert_eq!(piece_distibution_to_coord(&[true, false, false, true]), 2);
    assert_eq!(piece_distibution_to_coord(&[false, true, true, false]), 3);
    assert_eq!(piece_distibution_to_coord(&[false, true, false, true]), 4);
    assert_eq!(piece_distibution_to_coord(&[false, false, true, true]), 5);

    assert_eq!(piece_distibution_to_coord(
        &[true, true, true, true, false, false, false, false, false, false, false, false]
    ), 0);
    assert_eq!(piece_distibution_to_coord(
        &[false, false, false, false, false, false, false, false, true, true, true, true]
    ), 494);
}

#[test]
fn test_coord_to_piece_distribution() {
    assert_eq!(coord_to_piece_distribution(0, 3, 1), &[true, false, false]);
    assert_eq!(coord_to_piece_distribution(1, 3, 1), &[false, true, false]);
    assert_eq!(coord_to_piece_distribution(2, 3, 1), &[false, false, true]);

    assert_eq!(coord_to_piece_distribution(0, 4, 2), &[true, true, false, false]);
    assert_eq!(coord_to_piece_distribution(1, 4, 2), &[true, false, true, false]);
    assert_eq!(coord_to_piece_distribution(2, 4, 2), &[true, false, false, true]);
    assert_eq!(coord_to_piece_distribution(3, 4, 2), &[false, true, true, false]);
    assert_eq!(coord_to_piece_distribution(4, 4, 2), &[false, true, false, true]);
    assert_eq!(coord_to_piece_distribution(5, 4, 2), &[false, false, true, true]);

    assert_eq!(coord_to_piece_distribution(0, 12, 4),
        &[true, true, true, true, false, false, false, false, false, false, false, false]
    );
    assert_eq!(coord_to_piece_distribution(494, 12, 4),
        &[false, false, false, false, false, false, false, false, true, true, true, true]
    );
}

#[test]
fn test_is_even_parity() {
    assert_eq!(is_even_parity(&[0, 1, 2]), true);
    assert_eq!(is_even_parity(&[0, 2, 1]), false);
    assert_eq!(is_even_parity(&[0,1,2,3,4,5]), true);
    assert_eq!(is_even_parity(&[5,4,3,2,1,0]), false);
    assert_eq!(is_even_parity(&[0,1,2,3,4,5,6,7]), true);
    assert_eq!(is_even_parity(&[0,1,2,3,4,5,7,6]), false);
    assert_eq!(is_even_parity(&[0,1,2,3,4,5,6,7,8,9,10,11]), true);
    assert_eq!(is_even_parity(&[11,10,9,8,7,6,5,4,3,2,1,0]), true);
}
