//! Edge coordinates: where the four E-slice edges are, and the permutation of the four edges
//! of the E, M or S slice together with their distribution.
use vstd::prelude::*;
use vstd::slice::slice_to_vec;
use crate::coordinate::{Coordinate, BasicCoordinate, edge_indices, edge_indices_of, edges_of_indices, edge_at};
use crate::coordutils::{
    count_true, dist_coord, dist_decode, merge_by, piece_distibution_to_coord, get_perm_for_distribution_coord,
    lemma_dist_decode_count, lemma_count_true_take, lemma_dist_round_trip,
};
use crate::layered::{
    layer_flags, layered_coord, layered_example, holds_group, get_coord_for_pieces, get_pieces,
    lemma_swaps_map, lemma_swaps_keep_group, lemma_example_flags, lemma_example_values, group_flags,
    lemma_layered_round_trip, strictly_increasing,
};
use crate::mathutils::binom;
use crate::rawcube::{
    CubeModel, RawState, StateList, Edge, TurnEffect, edge_index, solved_model, swaps_applied,
    swap_positions, swaps_in_range, effect_applied, layer_effect, is_layer_turn, lemma_layer_effect_wf,
};
use crate::turndef::{Turn, outer_layer_turns};

verus! {

pub proof fn lemma_edge_counts()
    ensures
        binom(12, 4) == 495,
{
    reveal_with_fuel(binom, 13);
}

pub open spec fn e_slice_edges() -> Seq<usize> {
    seq![4usize, 5, 6, 7]
}

pub open spec fn m_slice_edges() -> Seq<usize> {
    seq![0usize, 2, 8, 10]
}

pub open spec fn s_slice_edges() -> Seq<usize> {
    seq![1usize, 3, 9, 11]
}

/// The U- and D-layer edges: UB, UL, UF, UR, DB, DL, DF, DR.
pub open spec fn ud_edges() -> Seq<usize> {
    seq![0usize, 1, 2, 3, 8, 9, 10, 11]
}

pub open spec fn slices_apart(on: Seq<usize>, off: Seq<usize>) -> bool {
    &&& on.len() == 4
    &&& off.len() == 8
    &&& forall|k: int| 0 <= k < 4 ==> #[trigger] on[k] < 12
    &&& forall|k: int| 0 <= k < 8 ==> #[trigger] off[k] < 12
    &&& forall|k: int| 0 <= k < 8 ==> !on.contains(#[trigger] off[k])
}

proof fn lemma_apart(on: Seq<usize>, off: Seq<usize>)
    requires
        on.len() == 4,
        off.len() == 8,
        forall|k: int| 0 <= k < 4 ==> #[trigger] on[k] < 12,
        forall|k: int| 0 <= k < 8 ==> #[trigger] off[k] < 12,
        forall|j: int, k: int| 0 <= j < 4 && 0 <= k < 8 ==> on[j] != off[k],
    ensures
        slices_apart(on, off),
{
    assert forall|k: int| 0 <= k < 8 implies !on.contains(#[trigger] off[k]) by {
        if on.contains(off[k]) {
            let j = choose|j: int| 0 <= j < 4 && on[j] == off[k];
            assert(on[j] != off[k]);
        }
    }
}

pub open spec fn slice_example(c: nat, on: Seq<usize>, off: Seq<usize>) -> CubeModel {
    CubeModel { edges: layered_example(c, on, off).map_values(|i: usize| edge_at(i as nat)), ..solved_model() }
}

pub open spec fn slice_project(m: CubeModel, on: Seq<usize>) -> nat {
    layered_coord(edge_indices(m.edges), on)
}

/// The edges with the given slice coordinate: the slice's edges permuted and spread among
/// the other edges.
fn get_edges(coord: usize, slice_edges: &[usize], off_slice_edges: &[usize]) -> (edges: StateList<Edge>)
    requires
        slices_apart(slice_edges@, off_slice_edges@),
        coord < 11880,
    ensures
        edges@ == slice_example(coord as nat, slice_edges@, off_slice_edges@).edges,
        edges@.len() == 12,
        holds_group(edge_indices(edges@), slice_edges@),
{
    proof {
        lemma_edge_counts();
        lemma_example_values(coord as nat, slice_edges@, off_slice_edges@, 12);
        lemma_example_flags(coord as nat, slice_edges@, off_slice_edges@);
    }
    let pieces = get_pieces(coord, slice_edges, off_slice_edges);
    let edges = edges_of_indices(pieces.as_slice());
    StateList::new(edges)
}

/// The slice coordinate of edges holding the slice's four edges.
fn get_coord_for_edges(edges: &[Edge], on_layer: &[usize]) -> (coord: usize)
    requires
        edges@.len() == 12,
        holds_group(edge_indices(edges@), on_layer@),
    ensures
        coord == layered_coord(edge_indices(edges@), on_layer@),
        coord < 11880,
{
    proof {
        lemma_edge_counts();
    }
    let ix = edge_indices_of(edges);
    get_coord_for_pieces(ix.as_slice(), on_layer)
}

fn slice_edges_after_turn(coord: usize, turn: &Turn, on_layer: &[usize], off_layer: &[usize]) -> (image: usize)
    requires
        slices_apart(on_layer@, off_layer@),
        coord < 11880,
        is_layer_turn(*turn),
    ensures
        image == slice_project(effect_applied(slice_example(coord as nat, on_layer@, off_layer@), layer_effect(*turn)), on_layer@),
        image < 11880,
{
    let mut edges = get_edges(coord, on_layer, off_layer);
    let ghost before = edges@;
    let turn_effect = TurnEffect::from_turn(turn);
    turn_effect.apply_to_edges_statelist(&mut edges);
    proof {
        let sw = layer_effect(*turn).edge_swaps;
        lemma_layer_effect_wf(*turn);
        lemma_swaps_map(before, sw, |e: Edge| edge_index(e) as usize);
        lemma_swaps_keep_group(edge_indices(before), sw, on_layer@);
    }
    get_coord_for_edges(edges.as_slice(), on_layer)
}

#[derive(Clone, Copy, Debug, PartialEq, Eq, Structural, Hash)]
pub struct ESliceEdgePermCoord {}

#[derive(Clone, Copy, Debug, PartialEq, Eq, Structural, Hash)]
pub struct MSliceEdgePermCoord {}

#[derive(Clone, Copy, Debug, PartialEq, Eq, Structural, Hash)]
pub struct SSliceEdgePermCoord {}

impl ESliceEdgePermCoord {
    pub fn new() -> (r: Self) {
        Self {  }
    }

    fn slices() -> (r: (Vec<usize>, Vec<usize>))
        ensures
            r.0@ == e_slice_edges(),
            r.1@ == m_slice_edges() + s_slice_edges(),
            slices_apart(r.0@, r.1@),
    {
        let on = vec![4usize, 5, 6, 7];
        let off = vec![0usize, 2, 8, 10, 1, 3, 9, 11];
        proof {
            assert(on@ =~= e_slice_edges());
            assert(off@ =~= m_slice_edges() + s_slice_edges());
            lemma_apart(on@, off@);
        }
        (on, off)
    }
}

impl MSliceEdgePermCoord {
    pub fn new() -> (r: Self) {
        Self {  }
    }

    fn slices() -> (r: (Vec<usize>, Vec<usize>))
        ensures
            r.0@ == m_slice_edges(),
            r.1@ == e_slice_edges() + s_slice_edges(),
            slices_apart(r.0@, r.1@),
    {
        let on = vec![0usize, 2, 8, 10];
        let off = vec![4usize, 5, 6, 7, 1, 3, 9, 11];
        proof {
            assert(on@ =~= m_slice_edges());
            assert(off@ =~= e_slice_edges() + s_slice_edges());
            lemma_apart(on@, off@);
        }
        (on, off)
    }
}

impl SSliceEdgePermCoord {
    pub fn new() -> (r: Self) {
        Self {  }
    }

    fn slices() -> (r: (Vec<usize>, Vec<usize>))
        ensures
            r.0@ == s_slice_edges(),
            r.1@ == e_slice_edges() + m_slice_edges(),
            slices_apart(r.0@, r.1@),
    {
        let on = vec![1usize, 3, 9, 11];
        let off = vec![4usize, 5, 6, 7, 0, 2, 8, 10];
        proof {
            assert(on@ =~= s_slice_edges());
            assert(off@ =~= e_slice_edges() + m_slice_edges());
            lemma_apart(on@, off@);
        }
        (on, off)
    }
}

impl Coordinate for ESliceEdgePermCoord {
    open spec fn size_spec(&self) -> nat {
        11880
    }

    open spec fn solved_spec(&self) -> Seq<usize> {
        seq![10200usize]
    }

    open spec fn allowed_spec(&self) -> Seq<Turn> {
        outer_layer_turns()
    }

    open spec fn turn_image(&self, c: nat, t: Turn) -> nat {
        slice_project(effect_applied(slice_example(c, e_slice_edges(), m_slice_edges() + s_slice_edges()), layer_effect(t)), e_slice_edges())
    }

    fn get_size(&self) -> (size: usize) {
        11880
    }

    fn get_solved_coords(&self) -> (coords: Vec<usize>) {
        vec![10200]
    }

    fn get_allowed_turns(&self) -> (turns: Vec<Turn>) {
        Turn::get_outer_layer_turns()
    }

    fn apply_turn(&self, coord: usize, turn: &Turn) -> (image: usize) {
        self.apply_raw_turn(coord, turn)
    }
}

impl BasicCoordinate for ESliceEdgePermCoord {
    open spec fn project(&self, m: CubeModel) -> nat {
        slice_project(m, e_slice_edges())
    }

    open spec fn example(&self, c: nat) -> CubeModel {
        slice_example(c, e_slice_edges(), m_slice_edges() + s_slice_edges())
    }

    open spec fn readable(&self, m: CubeModel) -> bool {
        holds_group(edge_indices(m.edges), e_slice_edges())
    }

    fn convert_raw_state_to_coord(&self, state: &RawState) -> (coord: usize) {
        let (on, _off) = Self::slices();
        get_coord_for_edges(state.edges.as_slice(), on.as_slice())
    }

    fn convert_coord_to_example_raw_state(&self, coord: usize) -> (state: RawState) {
        let (on, off) = Self::slices();
        let mut state = RawState::solved();
        state.edges = get_edges(coord, on.as_slice(), off.as_slice());
        state
    }

    fn apply_raw_turn(&self, coord: usize, turn: &Turn) -> (image: usize) {
        let (on, off) = Self::slices();
        slice_edges_after_turn(coord, turn, on.as_slice(), off.as_slice())
    }

    proof fn lemma_turn_image_is_raw(&self, c: nat, t: Turn) {
    }
}

impl Coordinate for MSliceEdgePermCoord {
    open spec fn size_spec(&self) -> nat {
        11880
    }

    open spec fn solved_spec(&self) -> Seq<usize> {
        seq![1824usize]
    }

    open spec fn allowed_spec(&self) -> Seq<Turn> {
        outer_layer_turns()
    }

    open spec fn turn_image(&self, c: nat, t: Turn) -> nat {
        slice_project(effect_applied(slice_example(c, m_slice_edges(), e_slice_edges() + s_slice_edges()), layer_effect(t)), m_slice_edges())
    }

    fn get_size(&self) -> (size: usize) {
        11880
    }

    fn get_solved_coords(&self) -> (coords: Vec<usize>) {
        vec![1824]
    }

    fn get_allowed_turns(&self) -> (turns: Vec<Turn>) {
        Turn::get_outer_layer_turns()
    }

    fn apply_turn(&self, coord: usize, turn: &Turn) -> (image: usize) {
        self.apply_raw_turn(coord, turn)
    }
}

impl BasicCoordinate for MSliceEdgePermCoord {
    open spec fn project(&self, m: CubeModel) -> nat {
        slice_project(m, m_slice_edges())
    }

    open spec fn example(&self, c: nat) -> CubeModel {
        slice_example(c, m_slice_edges(), e_slice_edges() + s_slice_edges())
    }

    open spec fn readable(&self, m: CubeModel) -> bool {
        holds_group(edge_indices(m.edges), m_slice_edges())
    }

    fn convert_raw_state_to_coord(&self, state: &RawState) -> (coord: usize) {
        let (on, _off) = Self::slices();
        get_coord_for_edges(state.edges.as_slice(), on.as_slice())
    }

    fn convert_coord_to_example_raw_state(&self, coord: usize) -> (state: RawState) {
        let (on, off) = Self::slices();
        let mut state = RawState::solved();
        state.edges = get_edges(coord, on.as_slice(), off.as_slice());
        state
    }

    fn apply_raw_turn(&self, coord: usize, turn: &Turn) -> (image: usize) {
        let (on, off) = Self::slices();
        slice_edges_after_turn(coord, turn, on.as_slice(), off.as_slice())
    }

    proof fn lemma_turn_image_is_raw(&self, c: nat, t: Turn) {
    }
}

impl Coordinate for SSliceEdgePermCoord {
    open spec fn size_spec(&self) -> nat {
        11880
    }

    open spec fn solved_spec(&self) -> Seq<usize> {
        seq![5448usize]
    }

    open spec fn allowed_spec(&self) -> Seq<Turn> {
        outer_layer_turns()
    }

    open spec fn turn_image(&self, c: nat, t: Turn) -> nat {
        slice_project(effect_applied(slice_example(c, s_slice_edges(), e_slice_edges() + m_slice_edges()), layer_effect(t)), s_slice_edges())
    }

    fn get_size(&self) -> (size: usize) {
        11880
    }

    fn get_solved_coords(&self) -> (coords: Vec<usize>) {
        vec![5448]
    }

    fn get_allowed_turns(&self) -> (turns: Vec<Turn>) {
        Turn::get_outer_layer_turns()
    }

    fn apply_turn(&self, coord: usize, turn: &Turn) -> (image: usize) {
        self.apply_raw_turn(coord, turn)
    }
}

impl BasicCoordinate for SSliceEdgePermCoord {
    open spec fn project(&self, m: CubeModel) -> nat {
        slice_project(m, s_slice_edges())
    }

    open spec fn example(&self, c: nat) -> CubeModel {
        slice_example(c, s_slice_edges(), e_slice_edges() + m_slice_edges())
    }

    open spec fn readable(&self, m: CubeModel) -> bool {
        holds_group(edge_indices(m.edges), s_slice_edges())
    }

    fn convert_raw_state_to_coord(&self, state: &RawState) -> (coord: usize) {
        let (on, _off) = Self::slices();
        get_coord_for_edges(state.edges.as_slice(), on.as_slice())
    }

    fn convert_coord_to_example_raw_state(&self, coord: usize) -> (state: RawState) {
        let (on, off) = Self::slices();
        let mut state = RawState::solved();
        state.edges = get_edges(coord, on.as_slice(), off.as_slice());
        state
    }

    fn apply_raw_turn(&self, coord: usize, turn: &Turn) -> (image: usize) {
        let (on, off) = Self::slices();
        slice_edges_after_turn(coord, turn, on.as_slice(), off.as_slice())
    }

    proof fn lemma_turn_image_is_raw(&self, c: nat, t: Turn) {
    }
}

/// The exchanges of the E-slice edges with the U-layer edges: BL-UB, FL-UL, FR-UF, BR-UR.
pub open spec fn e_ud_swaps() -> Seq<(int, int)> {
    seq![(4int, 0int), (5int, 1int), (6int, 2int), (7int, 3int)]
}

/// Where the E-slice edges are among the slice positions and the UD positions, read with the
/// E-slice and U-layer positions exchanged.
pub open spec fn sep_project(m: CubeModel) -> nat {
    dist_coord(layer_flags(edge_indices(swaps_applied(m.edges, e_ud_swaps())), e_slice_edges()))
}

pub open spec fn sep_example(c: nat) -> CubeModel {
    CubeModel {
        edges: swaps_applied(merge_by(dist_decode(c, 12, 4), e_slice_edges(), ud_edges()).map_values(|i: usize| edge_at(i as nat)), e_ud_swaps()),
        ..solved_model()
    }
}

fn e_ud_swap_list() -> (r: Vec<(Edge, Edge)>)
    ensures
        swap_positions(r@) == e_ud_swaps(),
{
    let r = vec![(Edge::BL, Edge::UB), (Edge::FL, Edge::UL), (Edge::FR, Edge::UF), (Edge::BR, Edge::UR)];
    proof {
        assert(swap_positions(r@) =~= e_ud_swaps());
    }
    r
}

pub proof fn lemma_merge_facts(c: nat)
    requires
        c < 495,
    ensures
        ({
            let m = merge_by(dist_decode(c, 12, 4), e_slice_edges(), ud_edges());
            &&& m.len() == 12
            &&& forall|j: int| 0 <= j < 12 ==> #[trigger] m[j] < 12
            &&& layer_flags(m, e_slice_edges()) == dist_decode(c, 12, 4)
        }),
{
    lemma_edge_counts();
    lemma_dist_decode_count(c, 12, 4);
    lemma_apart(e_slice_edges(), ud_edges());
    let d = dist_decode(c, 12, 4);
    let m = merge_by(d, e_slice_edges(), ud_edges());
    assert forall|j: int| 0 <= j < 12 implies #[trigger] m[j] < 12 && layer_flags(m, e_slice_edges())[j] == d[j] by {
        lemma_count_true_take(d, j);
        lemma_count_true_take(d, j + 1);
        assert(d.take(j + 1).drop_last() =~= d.take(j));
        if d[j] {
            let k = count_true(d.take(j)) as int;
            assert(m[j] == e_slice_edges()[k]);
            assert(e_slice_edges().contains(m[j]));
        } else {
            let k = j - count_true(d.take(j));
            assert(m[j] == ud_edges()[k]);
        }
    }
    assert(layer_flags(m, e_slice_edges()) =~= d);
}

/// Coordinate to represent the separation of the edges into the E slice and the U and D
/// layers: where the four E-slice edges are, C(12,4) = 495 ways.
#[derive(Clone, Copy, Debug, PartialEq, Eq, Structural, Hash)]
pub struct ESliceEdgeSepCoord {}

impl ESliceEdgeSepCoord {
    pub fn new() -> (r: Self) {
        Self {  }
    }

    fn get_edges(&self, coord: usize) -> (edges: StateList<Edge>)
        requires
            coord < 495,
        ensures
            edges@ == sep_example(coord as nat).edges,
            edges@.len() == 12,
            holds_group(edge_indices(edges@), e_slice_edges()),
    {
        let slice_edges = vec![4usize, 5, 6, 7];
        let ud = vec![0usize, 1, 2, 3, 8, 9, 10, 11];
        proof {
            assert(slice_edges@ =~= e_slice_edges());
            assert(ud@ =~= ud_edges());
            lemma_edge_counts();
            lemma_merge_facts(coord as nat);
        }
        let pieces = get_perm_for_distribution_coord(coord, slice_edges.as_slice(), ud.as_slice());
        let mut edges = StateList::new(edges_of_indices(pieces.as_slice()));
        let ghost before = edges@;
        proof {
            lemma_dist_decode_count(coord as nat, 12, 4);
            assert(edge_indices(before) == pieces@);
            assert(holds_group(edge_indices(before), e_slice_edges()));
        }
        let swaps = e_ud_swap_list();
        proof {
            assert(swaps_in_range(e_ud_swaps(), 12));
        }
        edges.apply_swaps(swaps.as_slice());
        proof {
            lemma_swaps_map(before, e_ud_swaps(), |e: Edge| edge_index(e) as usize);
            lemma_swaps_keep_group(edge_indices(before), e_ud_swaps(), e_slice_edges());
        }
        edges
    }
}

/// The separation coordinate of edges holding the four E-slice edges.
fn edge_sep_to_coord(edge_state: StateList<Edge>) -> (coord: usize)
    requires
        edge_state@.len() == 12,
        holds_group(edge_indices(edge_state@), e_slice_edges()),
    ensures
        coord == sep_project(CubeModel { edges: edge_state@, ..solved_model() }),
        coord < 495,
{
    let mut edges = edge_state;
    let ghost before = edges@;
    let swaps = e_ud_swap_list();
    proof {
        assert(swaps_in_range(e_ud_swaps(), 12));
    }
    edges.apply_swaps(swaps.as_slice());
    proof {
        lemma_swaps_map(before, e_ud_swaps(), |e: Edge| edge_index(e) as usize);
        lemma_swaps_keep_group(edge_indices(before), e_ud_swaps(), e_slice_edges());
        lemma_edge_counts();
    }
    let ix = edge_indices_of(edges.as_slice());
    let slice_edges = vec![4usize, 5, 6, 7];
    proof {
        assert(slice_edges@ =~= e_slice_edges());
    }
    let is_slice_edge = group_flags(ix.as_slice(), slice_edges.as_slice());
    piece_distibution_to_coord(is_slice_edge.as_slice())
}

impl Coordinate for ESliceEdgeSepCoord {
    open spec fn size_spec(&self) -> nat {
        495
    }

    open spec fn solved_spec(&self) -> Seq<usize> {
        seq![0usize]
    }

    open spec fn allowed_spec(&self) -> Seq<Turn> {
        outer_layer_turns()
    }

    open spec fn turn_image(&self, c: nat, t: Turn) -> nat {
        sep_project(effect_applied(sep_example(c), layer_effect(t)))
    }

    fn get_size(&self) -> (size: usize) {
        495
    }

    fn get_solved_coords(&self) -> (coords: Vec<usize>) {
        vec![0]
    }

    fn get_allowed_turns(&self) -> (turns: Vec<Turn>) {
        Turn::get_outer_layer_turns()
    }

    fn apply_turn(&self, coord: usize, turn: &Turn) -> (image: usize) {
        self.apply_raw_turn(coord, turn)
    }
}

impl BasicCoordinate for ESliceEdgeSepCoord {
    open spec fn project(&self, m: CubeModel) -> nat {
        sep_project(m)
    }

    open spec fn example(&self, c: nat) -> CubeModel {
        sep_example(c)
    }

    open spec fn readable(&self, m: CubeModel) -> bool {
        holds_group(edge_indices(m.edges), e_slice_edges())
    }

    fn convert_raw_state_to_coord(&self, state: &RawState) -> (coord: usize) {
        edge_sep_to_coord(StateList::new(slice_to_vec(state.edges.as_slice())))
    }

    fn convert_coord_to_example_raw_state(&self, coord: usize) -> (state: RawState) {
        let mut state = RawState::solved();
        state.edges = self.get_edges(coord);
        state
    }

    fn apply_raw_turn(&self, coord: usize, turn: &Turn) -> (image: usize) {
        let mut edges = self.get_edges(coord);
        let ghost before = edges@;
        let turn_effect = TurnEffect::from_turn(turn);
        turn_effect.apply_to_edges_statelist(&mut edges);
        proof {
            let sw = layer_effect(*turn).edge_swaps;
            lemma_layer_effect_wf(*turn);
            lemma_swaps_map(before, sw, |e: Edge| edge_index(e) as usize);
            lemma_swaps_keep_group(edge_indices(before), sw, e_slice_edges());
        }
        edge_sep_to_coord(edges)
    }

    proof fn lemma_turn_image_is_raw(&self, c: nat, t: Turn) {
    }
}

pub proof fn lemma_e_ud_swaps_twice<S>(s: Seq<S>)
    requires
        s.len() == 12,
    ensures
        swaps_applied(swaps_applied(s, e_ud_swaps()), e_ud_swaps()) == s,
{
    let sw = e_ud_swaps();
    assert(sw.drop_last().drop_last().drop_last().drop_last() =~= Seq::<(int, int)>::empty());
    assert(sw.drop_last().drop_last().drop_last().last() == sw[0]);
    assert(sw.drop_last().drop_last().last() == sw[1]);
    assert(sw.drop_last().last() == sw[2]);
    reveal_with_fuel(swaps_applied, 5);
    assert(swaps_applied(swaps_applied(s, sw), sw) =~= s);
}

/// The example state of an edge separation coordinate reads back as that coordinate.
pub proof fn lemma_sep_round_trip(c: nat)
    requires
        c < 495,
    ensures
        sep_project(sep_example(c)) == c,
{
    lemma_merge_facts(c);
    lemma_edge_counts();
    let m = merge_by(dist_decode(c, 12, 4), e_slice_edges(), ud_edges());
    let edges = m.map_values(|i: usize| edge_at(i as nat));
    lemma_e_ud_swaps_twice(edges);
    assert(edge_indices(edges) =~= m) by {
        assert forall|j: int| 0 <= j < 12 implies #[trigger] edge_indices(edges)[j] == m[j] by {
            assert(m[j] < 12);
        }
    }
    lemma_dist_round_trip(c, 12, 4);
}

proof fn lemma_slice_round_trip(c: nat, on: Seq<usize>, off: Seq<usize>)
    requires
        slices_apart(on, off),
        strictly_increasing(on),
        c < 11880,
    ensures
        slice_project(slice_example(c, on, off), on) == c,
{
    lemma_edge_counts();
    lemma_example_values(c, on, off, 12);
    lemma_layered_round_trip(c, on, off);
    let e = layered_example(c, on, off);
    assert(edge_indices(slice_example(c, on, off).edges) =~= e);
}

/// The example states of the E-, M- and S-slice edge coordinates read back as their
/// coordinates.
pub proof fn lemma_slice_perm_round_trips(c: nat)
    requires
        c < 11880,
    ensures
        slice_project(slice_example(c, e_slice_edges(), m_slice_edges() + s_slice_edges()), e_slice_edges()) == c,
        slice_project(slice_example(c, m_slice_edges(), e_slice_edges() + s_slice_edges()), m_slice_edges()) == c,
        slice_project(slice_example(c, s_slice_edges(), e_slice_edges() + m_slice_edges()), s_slice_edges()) == c,
{
    let e = e_slice_edges();
    let m = m_slice_edges();
    let s = s_slice_edges();
    lemma_apart(e, m + s);
    lemma_apart(m, e + s);
    lemma_apart(s, e + m);
    lemma_slice_round_trip(c, e, m + s);
    lemma_slice_round_trip(c, m, e + s);
    lemma_slice_round_trip(c, s, e + m);
}

} // verus!
