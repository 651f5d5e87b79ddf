use cube_solver::turndef::Turn;
use cube_solver::turnnames::TurnVec;

#[test]
fn every_turn_name_round_trips() {
    let turns = Turn::get_all_turns();
    assert_eq!(turns.len(), 57);
    for turn in &turns {
        let name = turn.to_name().unwrap();
        assert_eq!(Turn::from_name(&name), Some(*turn));
    }
    for i in 0..turns.len() {
        for j in i + 1..turns.len() {
            assert_ne!(turns[i], turns[j]);
        }
    }
}

#[test]
fn standard_directions() {
    assert_eq!(Turn::from_name("R").unwrap(), Turn::right());
    assert_eq!(Turn::from_name("M'").unwrap(), Turn::middle());
    assert_eq!(Turn::from_name("D").unwrap().to_base_turns(), vec![Turn::down(); 3]);
    assert_eq!(Turn::from_name("x").unwrap().to_name().unwrap(), "x");
    assert_eq!(Turn::right().to_name().unwrap(), "R");
    assert_eq!(Turn::middle().to_name().unwrap(), "M'");
}

#[test]
fn unknown_names_are_rejected() {
    assert_eq!(Turn::from_name("Q"), None);
    assert_eq!(Turn::from_name("R3"), None);
    assert_eq!(Turn::from_name(""), None);
    assert!(Turn::get_vec_from_alg_string("R Q U").is_none());
    assert_eq!(Turn(0x3).to_name(), None);
}

#[test]
fn algorithm_strings() {
    let turns = Turn::get_vec_from_alg_string("  R U'  F2 ").unwrap();
    assert_eq!(turns, vec![Turn::right(), Turn(0x1_0000 * 3), Turn(0x100_0000 * 2)]);
    assert_eq!(turns.to_algorithm_string(), "R U' F2");
    assert_eq!(turns.to_base_turns().len(), 1 + 3 + 2);
    assert_eq!(Turn::get_vec_from_alg_string("").unwrap(), vec![]);
}

#[test]
fn outer_layer_turns_in_order() {
    let turns = Turn::get_outer_layer_turns();
    assert_eq!(turns.len(), 18);
    assert_eq!(turns[0], Turn::right());
    assert_eq!(turns[1], Turn(0x200));
    assert_eq!(turns[17], Turn(0x3000_0000));
    assert!(Turn::right().is_base_move());
    assert!(!Turn(0x200).is_base_move());
}
