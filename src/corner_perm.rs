//! Corner permutation coordinates: the full permutation of the eight corners, and the
//! permutation of the four U-layer or D-layer corners with their distribution.
use vstd::prelude::*;
use crate::coordinate::{Coordinate, BasicCoordinate, corner_indices, corner_indices_of, corners_of_indices};
use crate::coordutils::{perm_coord, perm_decode, permutation_to_coord, coord_to_permutation, lemma_perm_round_trip};
use crate::layered::{
    layered_coord, layered_example, holds_group, get_coord_for_pieces, get_pieces,
    lemma_perm_decode_range, lemma_swaps_map, lemma_swaps_keep_group, lemma_example_flags,
    lemma_example_values, lemma_layered_round_trip, strictly_increasing,
};
use crate::mathutils::{binom, fact};
use crate::rawcube::{
    CubeModel, RawState, StateList, Corner, TurnEffect, corner_at, corner_index, solved_model,
    effect_applied, layer_effect, is_layer_turn, lemma_layer_effect_wf,
};
use crate::turndef::{Turn, outer_layer_turns};

verus! {

pub proof fn lemma_corner_counts()
    ensures
        fact(8) == 40320,
        binom(8, 4) == 70,
{
    reveal_with_fuel(binom, 9);
    crate::mathutils::lemma_fact_four();
    assert(fact(5) == 5 * fact(4));
    assert(fact(6) == 6 * fact(5));
    assert(fact(7) == 7 * fact(6));
    assert(fact(8) == 8 * fact(7));
}

pub open spec fn cp_example(c: nat) -> CubeModel {
    CubeModel { corners: perm_decode(c, 8).map_values(|i: usize| corner_at(i as nat)), ..solved_model() }
}

pub open spec fn cp_project(m: CubeModel) -> nat {
    perm_coord(corner_indices(m.corners))
}

/// Coordinate to represent corner permutation: the Lehmer code of the corner positions.
#[derive(Clone, Copy, Debug, PartialEq, Eq, Structural, Hash)]
pub struct CornerPermCoord {}

impl CornerPermCoord {
    pub fn new() -> (r: Self) {
        Self {  }
    }

    fn get_corners(&self, coord: usize) -> (corners: StateList<Corner>)
        requires
            coord < 40320,
        ensures
            corners@ == cp_example(coord as nat).corners,
            corners@.len() == 8,
    {
        proof {
            lemma_corner_counts();
            lemma_perm_decode_range(coord as nat, 8);
        }
        let perm = coord_to_permutation(coord, 8);
        StateList::new(corners_of_indices(perm.as_slice()))
    }
}

impl Coordinate for CornerPermCoord {
    open spec fn size_spec(&self) -> nat {
        40320
    }

    open spec fn solved_spec(&self) -> Seq<usize> {
        seq![0usize]
    }

    open spec fn allowed_spec(&self) -> Seq<Turn> {
        outer_layer_turns()
    }

    open spec fn turn_image(&self, c: nat, t: Turn) -> nat {
        cp_project(effect_applied(cp_example(c), layer_effect(t)))
    }

    fn get_size(&self) -> (size: usize) {
        40320
    }

    fn get_solved_coords(&self) -> (coords: Vec<usize>) {
        vec![0]
    }

    fn get_allowed_turns(&self) -> (turns: Vec<Turn>) {
        Turn::get_outer_layer_turns()
    }

    fn apply_turn(&self, coord: usize, turn: &Turn) -> (image: usize) {
        self.apply_raw_turn(coord, turn)
    }
}

impl BasicCoordinate for CornerPermCoord {
    open spec fn project(&self, m: CubeModel) -> nat {
        cp_project(m)
    }

    open spec fn example(&self, c: nat) -> CubeModel {
        cp_example(c)
    }

    open spec fn readable(&self, m: CubeModel) -> bool {
        true
    }

    fn convert_raw_state_to_coord(&self, state: &RawState) -> (coord: usize) {
        let ix = corner_indices_of(state.corners.as_slice());
        permutation_to_coord(ix.as_slice())
    }

    fn convert_coord_to_example_raw_state(&self, coord: usize) -> (state: RawState) {
        let mut state = RawState::solved();
        state.corners = self.get_corners(coord);
        state
    }

    fn apply_raw_turn(&self, coord: usize, turn: &Turn) -> (image: usize) {
        let mut corners = self.get_corners(coord);
        let turn_effect = TurnEffect::from_turn(turn);
        turn_effect.apply_to_corners_statelist(&mut corners);
        let ix = corner_indices_of(corners.as_slice());
        proof {
            lemma_corner_counts();
        }
        permutation_to_coord(ix.as_slice())
    }

    proof fn lemma_turn_image_is_raw(&self, c: nat, t: Turn) {
    }
}

/// The example state of a corner permutation coordinate reads back as that coordinate.
pub proof fn lemma_cp_round_trip(c: nat)
    requires
        c < 40320,
    ensures
        cp_project(cp_example(c)) == c,
{
    lemma_corner_counts();
    lemma_perm_decode_range(c, 8);
    lemma_perm_round_trip(c, 8);
    let p = perm_decode(c, 8);
    assert(corner_indices(cp_example(c).corners) =~= p);
}

pub open spec fn u_layer_corners() -> Seq<usize> {
    seq![0usize, 1, 2, 3]
}

pub open spec fn d_layer_corners() -> Seq<usize> {
    seq![4usize, 5, 6, 7]
}

pub open spec fn layer_corner_example(c: nat, on: Seq<usize>, off: Seq<usize>) -> CubeModel {
    CubeModel { corners: layered_example(c, on, off).map_values(|i: usize| corner_at(i as nat)), ..solved_model() }
}

pub open spec fn layer_corner_project(m: CubeModel, on: Seq<usize>) -> nat {
    layered_coord(corner_indices(m.corners), on)
}

pub open spec fn layers_apart(on: Seq<usize>, off: Seq<usize>) -> bool {
    &&& on.len() == 4
    &&& off.len() == 4
    &&& forall|k: int| 0 <= k < 4 ==> #[trigger] on[k] < 8
    &&& forall|k: int| 0 <= k < 4 ==> #[trigger] off[k] < 8
    &&& forall|k: int| 0 <= k < 4 ==> !on.contains(#[trigger] off[k])
}

/// The corners with the given layer coordinate: the layer's corners permuted and spread
/// among the other layer's corners.
fn get_corners(coord: usize, on_layer: &[usize], off_layer: &[usize]) -> (corners: StateList<Corner>)
    requires
        layers_apart(on_layer@, off_layer@),
        coord < 1680,
    ensures
        corners@ == layer_corner_example(coord as nat, on_layer@, off_layer@).corners,
        corners@.len() == 8,
        holds_group(corner_indices(corners@), on_layer@),
{
    proof {
        lemma_corner_counts();
        lemma_example_values(coord as nat, on_layer@, off_layer@, 8);
        lemma_example_flags(coord as nat, on_layer@, off_layer@);
    }
    let pieces = get_pieces(coord, on_layer, off_layer);
    let corners = corners_of_indices(pieces.as_slice());
    StateList::new(corners)
}

/// The layer coordinate of corners holding the layer's four corners.
fn get_coord_for_corners(corners: &[Corner], on_layer: &[usize]) -> (coord: usize)
    requires
        corners@.len() == 8,
        holds_group(corner_indices(corners@), on_layer@),
    ensures
        coord == layered_coord(corner_indices(corners@), on_layer@),
        coord < 1680,
{
    proof {
        lemma_corner_counts();
    }
    let ix = corner_indices_of(corners);
    get_coord_for_pieces(ix.as_slice(), on_layer)
}

fn layer_corners_after_turn(coord: usize, turn: &Turn, on_layer: &[usize], off_layer: &[usize]) -> (image: usize)
    requires
        layers_apart(on_layer@, off_layer@),
        coord < 1680,
        is_layer_turn(*turn),
    ensures
        image == layer_corner_project(
            effect_applied(layer_corner_example(coord as nat, on_layer@, off_layer@), layer_effect(*turn)),
            on_layer@,
        ),
        image < 1680,
{
    let mut corners = get_corners(coord, on_layer, off_layer);
    let ghost before = corners@;
    let turn_effect = TurnEffect::from_turn(turn);
    turn_effect.apply_to_corners_statelist(&mut corners);
    proof {
        let sw = layer_effect(*turn).corner_swaps;
        lemma_layer_effect_wf(*turn);
        lemma_swaps_map(before, sw, |c: Corner| corner_index(c) as usize);
        lemma_swaps_keep_group(corner_indices(before), sw, on_layer@);
    }
    get_coord_for_corners(corners.as_slice(), on_layer)
}

/// Coordinate of the U-layer corners: where they are (C(8,4) = 70 ways) times 24, plus their
/// order (4! = 24 ways).
#[derive(Clone, Copy, Debug, PartialEq, Eq, Structural, Hash)]
pub struct UCornerPermCoord {}

/// Coordinate of the D-layer corners, built as for the U layer.
#[derive(Clone, Copy, Debug, PartialEq, Eq, Structural, Hash)]
pub struct DCornerPermCoord {}

impl UCornerPermCoord {
    pub fn new() -> (r: Self) {
        Self {  }
    }

    fn layers() -> (r: (Vec<usize>, Vec<usize>))
        ensures
            r.0@ == u_layer_corners(),
            r.1@ == d_layer_corners(),
    {
        let on = vec![0usize, 1, 2, 3];
        let off = vec![4usize, 5, 6, 7];
        proof {
            assert(on@ =~= u_layer_corners());
            assert(off@ =~= d_layer_corners());
        }
        (on, off)
    }
}

impl DCornerPermCoord {
    pub fn new() -> (r: Self) {
        Self {  }
    }

    fn layers() -> (r: (Vec<usize>, Vec<usize>))
        ensures
            r.0@ == d_layer_corners(),
            r.1@ == u_layer_corners(),
    {
        let on = vec![4usize, 5, 6, 7];
        let off = vec![0usize, 1, 2, 3];
        proof {
            assert(on@ =~= d_layer_corners());
            assert(off@ =~= u_layer_corners());
        }
        (on, off)
    }
}

proof fn lemma_u_d_apart()
    ensures
        layers_apart(u_layer_corners(), d_layer_corners()),
        layers_apart(d_layer_corners(), u_layer_corners()),
{
    assert forall|k: int| 0 <= k < 4 implies !u_layer_corners().contains(#[trigger] d_layer_corners()[k]) by {
        if u_layer_corners().contains(d_layer_corners()[k]) {
            let j = choose|j: int| 0 <= j < 4 && u_layer_corners()[j] == d_layer_corners()[k];
        }
    }
    assert forall|k: int| 0 <= k < 4 implies !d_layer_corners().contains(#[trigger] u_layer_corners()[k]) by {
        if d_layer_corners().contains(u_layer_corners()[k]) {
            let j = choose|j: int| 0 <= j < 4 && d_layer_corners()[j] == u_layer_corners()[k];
        }
    }
}


impl Coordinate for UCornerPermCoord {
    open spec fn size_spec(&self) -> nat {
        1680
    }

    open spec fn solved_spec(&self) -> Seq<usize> {
        seq![0usize]
    }

    open spec fn allowed_spec(&self) -> Seq<Turn> {
        outer_layer_turns()
    }

    open spec fn turn_image(&self, c: nat, t: Turn) -> nat {
        layer_corner_project(effect_applied(layer_corner_example(c, u_layer_corners(), d_layer_corners()), layer_effect(t)), u_layer_corners())
    }

    fn get_size(&self) -> (size: usize) {
        1680
    }

    fn get_solved_coords(&self) -> (coords: Vec<usize>) {
        vec![0]
    }

    fn get_allowed_turns(&self) -> (turns: Vec<Turn>) {
        Turn::get_outer_layer_turns()
    }

    fn apply_turn(&self, coord: usize, turn: &Turn) -> (image: usize) {
        self.apply_raw_turn(coord, turn)
    }
}

impl BasicCoordinate for UCornerPermCoord {
    open spec fn project(&self, m: CubeModel) -> nat {
        layer_corner_project(m, u_layer_corners())
    }

    open spec fn example(&self, c: nat) -> CubeModel {
        layer_corner_example(c, u_layer_corners(), d_layer_corners())
    }

    open spec fn readable(&self, m: CubeModel) -> bool {
        holds_group(corner_indices(m.corners), u_layer_corners())
    }

    fn convert_raw_state_to_coord(&self, state: &RawState) -> (coord: usize) {
        let (on, _off) = Self::layers();
        get_coord_for_corners(state.corners.as_slice(), on.as_slice())
    }

    fn convert_coord_to_example_raw_state(&self, coord: usize) -> (state: RawState) {
        let (on, off) = Self::layers();
        proof {
            lemma_u_d_apart();
        }
        let mut state = RawState::solved();
        state.corners = get_corners(coord, on.as_slice(), off.as_slice());
        state
    }

    fn apply_raw_turn(&self, coord: usize, turn: &Turn) -> (image: usize) {
        let (on, off) = Self::layers();
        proof {
            lemma_u_d_apart();
        }
        layer_corners_after_turn(coord, turn, on.as_slice(), off.as_slice())
    }

    proof fn lemma_turn_image_is_raw(&self, c: nat, t: Turn) {
    }
}

impl Coordinate for DCornerPermCoord {
    open spec fn size_spec(&self) -> nat {
        1680
    }

    open spec fn solved_spec(&self) -> Seq<usize> {
        seq![1656usize]
    }

    open spec fn allowed_spec(&self) -> Seq<Turn> {
        outer_layer_turns()
    }

    open spec fn turn_image(&self, c: nat, t: Turn) -> nat {
        layer_corner_project(effect_applied(layer_corner_example(c, d_layer_corners(), u_layer_corners()), layer_effect(t)), d_layer_corners())
    }

    fn get_size(&self) -> (size: usize) {
        1680
    }

    fn get_solved_coords(&self) -> (coords: Vec<usize>) {
        vec![1656]
    }

    fn get_allowed_turns(&self) -> (turns: Vec<Turn>) {
        Turn::get_outer_layer_turns()
    }

    fn apply_turn(&self, coord: usize, turn: &Turn) -> (image: usize) {
        self.apply_raw_turn(coord, turn)
    }
}

impl BasicCoordinate for DCornerPermCoord {
    open spec fn project(&self, m: CubeModel) -> nat {
        layer_corner_project(m, d_layer_corners())
    }

    open spec fn example(&self, c: nat) -> CubeModel {
        layer_corner_example(c, d_layer_corners(), u_layer_corners())
    }

    open spec fn readable(&self, m: CubeModel) -> bool {
        holds_group(corner_indices(m.corners), d_layer_corners())
    }

    fn convert_raw_state_to_coord(&self, state: &RawState) -> (coord: usize) {
        let (on, _off) = Self::layers();
        get_coord_for_corners(state.corners.as_slice(), on.as_slice())
    }

    fn convert_coord_to_example_raw_state(&self, coord: usize) -> (state: RawState) {
        let (on, off) = Self::layers();
        proof {
            lemma_u_d_apart();
        }
        let mut state = RawState::solved();
        state.corners = get_corners(coord, on.as_slice(), off.as_slice());
        state
    }

    fn apply_raw_turn(&self, coord: usize, turn: &Turn) -> (image: usize) {
        let (on, off) = Self::layers();
        proof {
            lemma_u_d_apart();
        }
        layer_corners_after_turn(coord, turn, on.as_slice(), off.as_slice())
    }

    proof fn lemma_turn_image_is_raw(&self, c: nat, t: Turn) {
    }
}

proof fn lemma_layer_corner_round_trip(c: nat, on: Seq<usize>, off: Seq<usize>)
    requires
        layers_apart(on, off),
        strictly_increasing(on),
        c < 1680,
    ensures
        layer_corner_project(layer_corner_example(c, on, off), on) == c,
{
    lemma_corner_counts();
    lemma_example_values(c, on, off, 8);
    lemma_layered_round_trip(c, on, off);
    let e = layered_example(c, on, off);
    assert(corner_indices(layer_corner_example(c, on, off).corners) =~= e);
}

/// The example state of a U-layer corner coordinate reads back as that coordinate.
pub proof fn lemma_u_corner_round_trip(c: nat)
    requires
        c < 1680,
    ensures
        layer_corner_project(layer_corner_example(c, u_layer_corners(), d_layer_corners()), u_layer_corners()) == c,
{
    lemma_u_d_apart();
    lemma_layer_corner_round_trip(c, u_layer_corners(), d_layer_corners());
}

/// The example state of a D-layer corner coordinate reads back as that coordinate.
pub proof fn lemma_d_corner_round_trip(c: nat)
    requires
        c < 1680,
    ensures
        layer_corner_project(layer_corner_example(c, d_layer_corners(), u_layer_corners()), d_layer_corners()) == c,
{
    lemma_u_d_apart();
    lemma_layer_corner_round_trip(c, d_layer_corners(), u_layer_corners());
}

} // verus!
