use cube_solver::mathutils::{precompute_binomial_table, precompute_factorial_table};

#[test]
fn test_precompute_binomial_table() {
    let binomial_table = precompute_binomial_table();
    assert_eq!(binomial_table[0][0], 1);
    assert_eq!(binomial_table[1][0], 1);
    assert_eq!(binomial_table[1][1], 1);
    assert_eq!(binomial_table[2][0], 1);
    assert_eq!(binomial_table[2][1], 2);
    assert_eq!(binomial_table[2][2], 1);
    assert_eq!(binomial_table[3][0], 1);
    assert_eq!(binomial_table[3][1], 3);
    assert_eq!(binomial_table[3][2], 3);
    assert_eq!(binomial_table[3][3], 1);
    assert_eq!(binomial_table[4][0], 1);
    assert_eq!(binomial_table[4][1], 4);
    assert_eq!(binomial_table[4][2], 6);
    assert_eq!(binomial_table[4][3], 4);
    assert_eq!(binomial_table[4][4], 1);
    assert_eq!(binomial_table[11][7], 330);
    assert_eq!(binomial_table[12][4], 495);
}

#[test]
fn test_precompute_factorial_table() {
    let factorial_table = precompute_factorial_table();
    assert_eq!(factorial_table[0], 1);
    assert_eq!(factorial_table[1], 1);
    assert_eq!(factorial_table[2], 2);
    assert_eq!(factorial_table[3], 6);
    assert_eq!(factorial_table[4], 24);
    assert_eq!(factorial_table[5], 120);
    assert_eq!(factorial_table[6], 720);
    assert_eq!(factorial_table[7], 5_040);
    assert_eq!(factorial_table[8], 40_320);
    assert_eq!(factorial_table[9], 362_880);
    assert_eq!(factorial_table[10], 3_628_800);
    assert_eq!(factorial_table[11], 39_916_800);
    assert_eq!(factorial_table[12], 479_001_600);
}
