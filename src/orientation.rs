//! Orientation coordinates: edge orientation relative to the FB axis and corner orientation
//! relative to the UD axis.
use vstd::prelude::*;
use vstd::slice::slice_subrange;
use crate::coordinate::{Coordinate, BasicCoordinate};
use crate::coordutils::{
    flip_coord, flips_of, coord_to_flip, flip_to_coord, twist_coord, twists_of, coord_to_twist, twist_to_coord, pow3,
    lemma_flip_round_trip, lemma_flips_of_coord, lemma_twist_round_trip, lemma_twists_of_coord,
};
use crate::mathutils::pow2;
use crate::rawcube::{
    CubeModel, RawState, StateList, Flip, Twist, TurnEffect, flip_of, flip_value, twist_of, twist_value,
    solved_model, effect_applied, layer_effect, is_layer_turn,
};
use crate::turndef::{Turn, outer_layer_turns};

verus! {

/// The number of bad edges.
pub open spec fn bad_count(s: Seq<Flip>) -> nat
    decreases s.len(),
{
    if s.len() == 0 {
        0
    } else {
        bad_count(s.drop_last()) + flip_value(s.last())
    }
}

/// Eleven flips read from the coordinate, and a twelfth that makes the number of bad edges
/// even.
pub open spec fn eo_flips(c: nat) -> Seq<Flip> {
    let f = flips_of(c, 11);
    f.push(flip_of(bad_count(f)))
}

pub open spec fn eo_example(c: nat) -> CubeModel {
    CubeModel { flips: eo_flips(c), ..solved_model() }
}

/// The first eleven flips as a binary number.
pub open spec fn eo_project(m: CubeModel) -> nat {
    flip_coord(m.flips.take(11))
}

proof fn lemma_small_powers()
    ensures
        pow2(11) == 2048,
        pow3(7) == 2187,
{
    reveal_with_fuel(pow2, 12);
    reveal_with_fuel(pow3, 8);
}

pub proof fn lemma_flips_of_len(c: nat, n: nat)
    ensures
        flips_of(c, n).len() == n,
    decreases n,
{
    if n > 0 {
        lemma_flips_of_len(c / 2, (n - 1) as nat);
    }
}

pub proof fn lemma_twists_of_len(c: nat, n: nat)
    ensures
        twists_of(c, n).len() == n,
    decreases n,
{
    if n > 0 {
        lemma_twists_of_len(c / 3, (n - 1) as nat);
    }
}

/// Coordinate for edge orientation relative to the FB axis: the first eleven edge flips as a
/// binary number; the twelfth follows from the even number of bad edges.
#[derive(Clone, Copy, Debug, PartialEq, Eq, Structural, Hash)]
pub struct EOFBCoord {}

impl EOFBCoord {
    pub fn new() -> (r: Self) {
        Self {  }
    }

    fn get_flips(&self, coord: usize) -> (flips: StateList<Flip>)
        ensures
            flips@ == eo_flips(coord as nat),
            flips@.len() == 12,
    {
        let mut flips = coord_to_flip(coord, 11);
        proof {
            lemma_flips_of_len(coord as nat, 11);
        }
        let mut flip_last = false;
        let mut i: usize = 0;
        while i < flips.len()
            invariant
                i <= flips@.len() == 11,
                flips@ == flips_of(coord as nat, 11),
                flip_last == (bad_count(flips@.take(i as int)) % 2 == 1),
            decreases flips@.len() - i,
        {
            proof {
                assert(flips@.take(i + 1).drop_last() =~= flips@.take(i as int));
            }
            flip_last = flip_last ^ (flips[i] == Flip::Bad);
            i = i + 1;
        }
        proof {
            assert(flips@.take(11) =~= flips@);
        }
        flips.push(if flip_last { Flip::Bad } else { Flip::Good });
        StateList::new(flips)
    }
}

impl Coordinate for EOFBCoord {
    open spec fn size_spec(&self) -> nat {
        2048
    }

    open spec fn solved_spec(&self) -> Seq<usize> {
        seq![0usize]
    }

    open spec fn allowed_spec(&self) -> Seq<Turn> {
        outer_layer_turns()
    }

    open spec fn turn_image(&self, c: nat, t: Turn) -> nat {
        eo_project(effect_applied(eo_example(c), layer_effect(t)))
    }

    fn get_size(&self) -> (size: usize) {
        2048
    }

    fn get_solved_coords(&self) -> (coords: Vec<usize>) {
        vec![0]
    }

    fn get_allowed_turns(&self) -> (turns: Vec<Turn>) {
        Turn::get_outer_layer_turns()
    }

    fn apply_turn(&self, coord: usize, turn: &Turn) -> (image: usize) {
        self.apply_raw_turn(coord, turn)
    }
}

impl BasicCoordinate for EOFBCoord {
    open spec fn project(&self, m: CubeModel) -> nat {
        eo_project(m)
    }

    open spec fn example(&self, c: nat) -> CubeModel {
        eo_example(c)
    }

    open spec fn readable(&self, m: CubeModel) -> bool {
        true
    }

    fn convert_raw_state_to_coord(&self, state: &RawState) -> (coord: usize) {
        proof {
            lemma_small_powers();
        }
        // The twelfth flip follows from the other eleven.
        flip_to_coord(slice_subrange(state.flips.as_slice(), 0, 11))
    }

    fn convert_coord_to_example_raw_state(&self, coord: usize) -> (state: RawState) {
        let mut state = RawState::solved();
        state.flips = self.get_flips(coord);
        state
    }

    fn apply_raw_turn(&self, coord: usize, turn: &Turn) -> (image: usize) {
        let mut flips = self.get_flips(coord);
        let turn_effect = TurnEffect::from_turn(turn);
        turn_effect.apply_to_flips_statelist(&mut flips);
        proof {
            lemma_small_powers();
        }
        flip_to_coord(slice_subrange(flips.as_slice(), 0, 11))
    }

    proof fn lemma_turn_image_is_raw(&self, c: nat, t: Turn) {
    }
}

/// The sum of the twists' values.
pub open spec fn twist_total(s: Seq<Twist>) -> nat
    decreases s.len(),
{
    if s.len() == 0 {
        0
    } else {
        twist_total(s.drop_last()) + twist_value(s.last())
    }
}

/// Seven twists read from the coordinate, and an eighth that makes the total a multiple of 3.
pub open spec fn co_twists(c: nat) -> Seq<Twist> {
    let t = twists_of(c, 7);
    t.push(twist_of((3 - twist_total(t) % 3) as nat))
}

pub open spec fn co_example(c: nat) -> CubeModel {
    CubeModel { twists: co_twists(c), ..solved_model() }
}

/// The first seven twists as a base-3 number.
pub open spec fn co_project(m: CubeModel) -> nat {
    twist_coord(m.twists.take(7))
}

/// Coordinate for corner orientation relative to the UD axis: the first seven corner twists as
/// a base-3 number; the eighth follows from the total twist being a multiple of 3.
#[derive(Clone, Copy, Debug, PartialEq, Eq, Structural, Hash)]
pub struct COUDCoord {}

impl COUDCoord {
    pub fn new() -> (r: Self) {
        Self {  }
    }

    fn get_twists(&self, coord: usize) -> (twists: StateList<Twist>)
        ensures
            twists@ == co_twists(coord as nat),
            twists@.len() == 8,
    {
        let mut twists = coord_to_twist(coord, 7);
        proof {
            lemma_twists_of_len(coord as nat, 7);
        }
        let mut total_twist: usize = 0;
        let mut i: usize = 0;
        while i < twists.len()
            invariant
                i <= twists@.len() == 7,
                twists@ == twists_of(coord as nat, 7),
                total_twist == twist_total(twists@.take(i as int)),
                total_twist <= 2 * i,
            decreases twists@.len() - i,
        {
            proof {
                assert(twists@.take(i + 1).drop_last() =~= twists@.take(i as int));
            }
            total_twist = total_twist + twists[i].value();
            i = i + 1;
        }
        proof {
            assert(twists@.take(7) =~= twists@);
        }
        twists.push(Twist::from_value(3 - (total_twist % 3)));
        StateList::new(twists)
    }
}

impl Coordinate for COUDCoord {
    open spec fn size_spec(&self) -> nat {
        2187
    }

    open spec fn solved_spec(&self) -> Seq<usize> {
        seq![0usize]
    }

    open spec fn allowed_spec(&self) -> Seq<Turn> {
        outer_layer_turns()
    }

    open spec fn turn_image(&self, c: nat, t: Turn) -> nat {
        co_project(effect_applied(co_example(c), layer_effect(t)))
    }

    fn get_size(&self) -> (size: usize) {
        2187
    }

    fn get_solved_coords(&self) -> (coords: Vec<usize>) {
        vec![0]
    }

    fn get_allowed_turns(&self) -> (turns: Vec<Turn>) {
        Turn::get_outer_layer_turns()
    }

    fn apply_turn(&self, coord: usize, turn: &Turn) -> (image: usize) {
        self.apply_raw_turn(coord, turn)
    }
}

impl BasicCoordinate for COUDCoord {
    open spec fn project(&self, m: CubeModel) -> nat {
        co_project(m)
    }

    open spec fn example(&self, c: nat) -> CubeModel {
        co_example(c)
    }

    open spec fn readable(&self, m: CubeModel) -> bool {
        true
    }

    fn convert_raw_state_to_coord(&self, state: &RawState) -> (coord: usize) {
        proof {
            lemma_small_powers();
        }
        // The eighth twist follows from the other seven.
        twist_to_coord(slice_subrange(state.twists.as_slice(), 0, 7))
    }

    fn convert_coord_to_example_raw_state(&self, coord: usize) -> (state: RawState) {
        let mut state = RawState::solved();
        state.twists = self.get_twists(coord);
        state
    }

    fn apply_raw_turn(&self, coord: usize, turn: &Turn) -> (image: usize) {
        let mut twists = self.get_twists(coord);
        let turn_effect = TurnEffect::from_turn(turn);
        turn_effect.apply_to_twists_statelist(&mut twists);
        proof {
            lemma_small_powers();
        }
        twist_to_coord(slice_subrange(twists.as_slice(), 0, 7))
    }

    proof fn lemma_turn_image_is_raw(&self, c: nat, t: Turn) {
    }
}

/// The example state of an edge orientation coordinate reads back as that coordinate.
pub proof fn lemma_eo_round_trip(c: nat)
    requires
        c < 2048,
    ensures
        eo_project(eo_example(c)) == c,
{
    lemma_small_powers();
    lemma_flips_of_len(c, 11);
    lemma_flip_round_trip(c, 11);
    assert(eo_example(c).flips.take(11) =~= flips_of(c, 11));
}

/// Twelve flips with an even number of bad edges are the flips of their coordinate.
pub proof fn lemma_eo_flips_of_project(m: CubeModel)
    requires
        m.flips.len() == 12,
        bad_count(m.flips) % 2 == 0,
    ensures
        eo_flips(eo_project(m)) == m.flips,
{
    let first = m.flips.take(11);
    lemma_flips_of_coord(first);
    assert(m.flips.drop_last() =~= first);
    assert(flip_of(bad_count(first)) == m.flips.last());
    assert(eo_flips(eo_project(m)) =~= m.flips);
}

/// The example state of a corner orientation coordinate reads back as that coordinate.
pub proof fn lemma_co_round_trip(c: nat)
    requires
        c < 2187,
    ensures
        co_project(co_example(c)) == c,
{
    lemma_small_powers();
    lemma_twists_of_len(c, 7);
    lemma_twist_round_trip(c, 7);
    assert(co_example(c).twists.take(7) =~= twists_of(c, 7));
}

/// Eight twists whose total is a multiple of 3 are the twists of their coordinate.
pub proof fn lemma_co_twists_of_project(m: CubeModel)
    requires
        m.twists.len() == 8,
        twist_total(m.twists) % 3 == 0,
    ensures
        co_twists(co_project(m)) == m.twists,
{
    let first = m.twists.take(7);
    lemma_twists_of_coord(first);
    assert(m.twists.drop_last() =~= first);
    assert(twist_of((3 - twist_total(first) % 3) as nat) == m.twists.last());
    assert(co_twists(co_project(m)) =~= m.twists);
}

} // verus!
