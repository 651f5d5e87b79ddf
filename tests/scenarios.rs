use cube_solver::coordinate::{BasicCoordinate, Coordinate};
use cube_solver::corner_perm::{CornerPermCoord, DCornerPermCoord, UCornerPermCoord};
use cube_solver::edge_perm::{ESliceEdgePermCoord, ESliceEdgeSepCoord, MSliceEdgePermCoord, SSliceEdgePermCoord};
use cube_solver::movetables::MoveTables;
use cube_solver::orientation::{COUDCoord, EOFBCoord};
use cube_solver::pruningtables::PruningTable;
use cube_solver::rawcube::{Centre, Corner, Edge, Flip, RawState, Twist};
use cube_solver::solver::solve_optimally;
use cube_solver::turndef::Turn;

fn scrambled(alg: &str) -> RawState {
    let mut state = RawState::solved();
    for turn in Turn::get_vec_from_alg_string(alg).unwrap() {
        state.apply_turn(&turn);
    }
    state
}

fn same_state(a: &RawState, b: &RawState) -> bool {
    a.corners.as_slice() == b.corners.as_slice()
        && a.twists.as_slice() == b.twists.as_slice()
        && a.edges.as_slice() == b.edges.as_slice()
        && a.flips.as_slice() == b.flips.as_slice()
        && a.centers.as_slice() == b.centers.as_slice()
}

const SCRAMBLE: &str = "F U' R B2 L2 M' U R' D2 S E2 L U";

#[test]
fn scramble_reaches_recorded_state() {
    let state = scrambled(SCRAMBLE);
    assert_eq!(
        state.corners.as_slice(),
        &[Corner::DFL, Corner::DFR, Corner::UBR, Corner::DBL, Corner::DBR, Corner::UFR, Corner::UBL, Corner::UFL]
    );
    assert_eq!(
        state.edges.as_slice(),
        &[
            Edge::UL, Edge::UF, Edge::FR, Edge::DL, Edge::UB, Edge::DR,
            Edge::DF, Edge::FL, Edge::UR, Edge::BR, Edge::DB, Edge::BL,
        ]
    );
    assert_eq!(
        state.twists.as_slice(),
        &[Twist::CW, Twist::Zero, Twist::CW, Twist::Zero, Twist::CW, Twist::Zero, Twist::Zero, Twist::Zero]
    );
    assert_eq!(
        state.flips.as_slice(),
        &[
            Flip::Bad, Flip::Bad, Flip::Bad, Flip::Good, Flip::Bad, Flip::Bad,
            Flip::Bad, Flip::Bad, Flip::Bad, Flip::Good, Flip::Bad, Flip::Bad,
        ]
    );
    assert_eq!(state.centers.as_slice(), &[Centre::L, Centre::F, Centre::U, Centre::B, Centre::D, Centre::R]);
}

#[test]
fn front_turn_changes_edge_orientation_and_back() {
    let eo = EOFBCoord::new();
    let mut state = RawState::solved();
    assert_eq!(eo.convert_raw_state_to_coord(&state), 0);
    state.apply_turn(&Turn::front());
    let after = eo.convert_raw_state_to_coord(&state);
    assert_eq!(after, 1124);
    let tables = MoveTables::new_basic_table(eo, &eo.get_allowed_turns());
    let back = tables.apply_move_to_coord(after, &Turn::from_name("F'").unwrap());
    assert_eq!(back, 0);
}

#[test]
fn right_twice_equals_right_half_turn() {
    let eo = EOFBCoord::new();
    let tables = MoveTables::new_basic_table(eo, &eo.get_allowed_turns());
    let r = Turn::from_name("R").unwrap();
    let r2 = Turn::from_name("R2").unwrap();
    for c in 0..2048 {
        let twice = tables.apply_move_to_coord(tables.apply_move_to_coord(c, &r), &r);
        assert_eq!(twice, tables.apply_move_to_coord(c, &r2));
    }
}

#[test]
fn corner_permutation_front_round_trip() {
    let cp = CornerPermCoord::new();
    let tables = MoveTables::new_basic_table(cp, &cp.get_allowed_turns());
    let f = Turn::from_name("F").unwrap();
    let f_inverse = Turn::from_name("F'").unwrap();
    let image = tables.apply_move_to_coord(6313, &f);
    assert_ne!(image, 6313);
    assert_eq!(tables.apply_move_to_coord(image, &f_inverse), 6313);
}

#[test]
fn edge_orientation_pruning_depth_is_small() {
    let eo = EOFBCoord::new();
    let tables = MoveTables::new_basic_table(eo, &eo.get_allowed_turns());
    let pruning = PruningTable::new(eo, &tables).unwrap();
    let mut max = 0;
    for c in 0..2048 {
        let d = pruning.get_distance(c);
        assert!(d != 255);
        if d > max {
            max = d;
        }
    }
    assert!(max <= 20);
    assert_eq!(pruning.get_distance(0), 0);
    assert!(pruning.is_descending(&tables));
}

#[test]
fn solving_edge_orientation_descends_one_step_at_a_time() {
    let eo = EOFBCoord::new();
    let mut state = RawState::solved();
    state.apply_turn(&Turn::front());
    let start = eo.convert_raw_state_to_coord(&state);
    let tables = MoveTables::new_basic_table(eo, &eo.get_allowed_turns());
    let pruning = PruningTable::new(eo, &tables).unwrap();
    let start_distance = pruning.get_distance(start);
    assert!(start_distance > 0);
    let check_tables = MoveTables::new_basic_table(eo, &eo.get_allowed_turns());
    let check_pruning = PruningTable::new(eo, &check_tables).unwrap();
    let solution = solve_optimally(start, tables, pruning);
    assert_eq!(solution.len(), start_distance as usize);
    let mut coord = start;
    for turn in &solution {
        let next = check_tables.apply_move_to_coord(coord, turn);
        assert_eq!(check_pruning.get_distance(next) + 1, check_pruning.get_distance(coord));
        coord = next;
    }
    assert_eq!(check_pruning.get_distance(coord), 0);
}

#[test]
fn quarter_turn_four_times_is_identity() {
    let start = scrambled(SCRAMBLE);
    for layer in Turn::get_base_layer_turns() {
        let mut state = scrambled(SCRAMBLE);
        for _ in 0..4 {
            state.apply_turn(&layer);
        }
        assert!(same_state(&state, &start));
    }
}

#[test]
fn half_turn_twice_and_turn_then_inverse_are_identity() {
    let start = scrambled(SCRAMBLE);
    for name in ["R", "M", "L", "U", "E", "D", "F", "S", "B", "x", "y", "z", "r", "l", "u", "d", "f", "b"] {
        let quarter = Turn::from_name(name).unwrap();
        let half = Turn::from_name(&format!("{}2", name)).unwrap();
        let inverse = Turn::from_name(&format!("{}'", name)).unwrap();
        let mut state = scrambled(SCRAMBLE);
        state.apply_turn(&half);
        state.apply_turn(&half);
        assert!(same_state(&state, &start));
        state.apply_turn(&quarter);
        state.apply_turn(&inverse);
        assert!(same_state(&state, &start));
    }
}

fn check_round_trip<C: BasicCoordinate + Copy>(coord_type: C, step: usize) {
    let size = coord_type.get_size();
    let mut c = 0;
    while c < size {
        let state = coord_type.convert_coord_to_example_raw_state(c);
        assert_eq!(coord_type.convert_raw_state_to_coord(&state), c);
        c += step;
    }
}

#[test]
fn example_states_read_back_to_their_coordinates() {
    check_round_trip(EOFBCoord::new(), 1);
    check_round_trip(COUDCoord::new(), 1);
    check_round_trip(ESliceEdgeSepCoord::new(), 1);
    check_round_trip(CornerPermCoord::new(), 7);
    check_round_trip(UCornerPermCoord::new(), 1);
    check_round_trip(DCornerPermCoord::new(), 1);
    check_round_trip(ESliceEdgePermCoord::new(), 3);
    check_round_trip(MSliceEdgePermCoord::new(), 3);
    check_round_trip(SSliceEdgePermCoord::new(), 3);
}

#[test]
fn solved_state_reads_as_a_solved_coordinate() {
    let solved = RawState::solved();
    assert_eq!(EOFBCoord::new().convert_raw_state_to_coord(&solved), 0);
    assert_eq!(COUDCoord::new().convert_raw_state_to_coord(&solved), 0);
    assert_eq!(ESliceEdgeSepCoord::new().convert_raw_state_to_coord(&solved), 0);
    assert_eq!(CornerPermCoord::new().convert_raw_state_to_coord(&solved), 0);
    assert_eq!(UCornerPermCoord::new().convert_raw_state_to_coord(&solved), UCornerPermCoord::new().get_solved_coords()[0]);
    assert_eq!(DCornerPermCoord::new().convert_raw_state_to_coord(&solved), 1656);
    assert_eq!(ESliceEdgePermCoord::new().convert_raw_state_to_coord(&solved), 10200);
    assert_eq!(MSliceEdgePermCoord::new().convert_raw_state_to_coord(&solved), 1824);
    assert_eq!(SSliceEdgePermCoord::new().convert_raw_state_to_coord(&solved), 5448);
}

#[test]
fn tables_agree_with_the_raw_state() {
    let co = COUDCoord::new();
    let tables = MoveTables::new_basic_table(co, &co.get_allowed_turns());
    for turn in co.get_allowed_turns() {
        for c in (0..2187).step_by(5) {
            let mut state = co.convert_coord_to_example_raw_state(c);
            state.apply_turn(&turn);
            assert_eq!(tables.apply_move_to_coord(c, &turn), co.convert_raw_state_to_coord(&state));
        }
    }
}

#[test]
fn every_table_is_a_permutation() {
    let eo = EOFBCoord::new();
    let tables = MoveTables::new_basic_table(eo, &eo.get_allowed_turns());
    for turn in eo.get_allowed_turns() {
        let mut seen = vec![false; 2048];
        for c in 0..2048 {
            let image = tables.apply_move_to_coord(c, &turn);
            assert!(!seen[image]);
            seen[image] = true;
        }
    }
}

#[test]
fn unreachable_coordinates_give_no_pruning_table() {
    let eo = EOFBCoord::new();
    let tables = MoveTables::new_basic_table(eo, &[Turn::up()]);
    assert!(PruningTable::new(eo, &tables).is_none());
}

#[test]
fn outer_turns_have_inverses_in_the_tables() {
    let eo = EOFBCoord::new();
    let tables = MoveTables::new_basic_table(eo, &eo.get_allowed_turns());
    assert!(tables.has_inverses());
    let cp = CornerPermCoord::new();
    let up_only = MoveTables::new_basic_table(cp, &[Turn::up()]);
    assert!(!up_only.has_inverses());
}

#[test]
fn pruning_entries_step_down_by_one() {
    let co = COUDCoord::new();
    let tables = MoveTables::new_basic_table(co, &co.get_allowed_turns());
    let pruning = PruningTable::new(co, &tables).unwrap();
    let turns = tables.get_turns().to_vec();
    for c in 0..2187 {
        let d = pruning.get_distance(c);
        if d > 0 {
            assert!(turns.iter().any(|t| pruning.get_distance(tables.apply_move_to_coord(c, t)) + 1 == d));
        }
    }
}

#[test]
fn move_tables_keep_the_move_set_order() {
    let eo = EOFBCoord::new();
    let allowed = eo.get_allowed_turns();
    let tables = MoveTables::new_basic_table(eo, &allowed);
    assert_eq!(tables.get_turns(), allowed.as_slice());
    let doubled = vec![Turn::front(), Turn::up(), Turn::front()];
    let tables = MoveTables::new_basic_table(eo, &doubled);
    assert_eq!(tables.get_turns(), &[Turn::front(), Turn::up()]);
}

#[test]
fn pruning_distances_change_by_at_most_one() {
    let cp = CornerPermCoord::new();
    let tables = MoveTables::new_basic_table(cp, &cp.get_allowed_turns());
    assert!(tables.has_inverses());
    let pruning = PruningTable::new(cp, &tables).unwrap();
    for c in (0..40320).step_by(97) {
        let d = pruning.get_distance(c) as i32;
        for t in tables.get_turns() {
            let e = pruning.get_distance(tables.apply_move_to_coord(c, t)) as i32;
            assert!((d - e).abs() <= 1);
        }
    }
}
