//! The coordinate contract: an integer view of part of the cube state, with the turns under
//! which it is closed and a way to step it through the raw state.
use vstd::prelude::*;
use crate::rawcube::{CubeModel, RawState, Corner, Edge, PiecePosition, corner_index, corner_at, edge_index, effect_applied, layer_effect, is_layer_turn};
use crate::turndef::Turn;

verus! {

/// A coordinate type: coordinates are the integers 0..size.
pub trait Coordinate {
    spec fn size_spec(&self) -> nat;

    spec fn solved_spec(&self) -> Seq<usize>;

    spec fn allowed_spec(&self) -> Seq<Turn>;

    /// The image of coordinate c under the quarter turn t of a single layer.
    spec fn turn_image(&self, c: nat, t: Turn) -> nat;

    fn get_size(&self) -> (size: usize)
        ensures
            size == self.size_spec(),
            size >= 1,
    ;

    fn get_solved_coords(&self) -> (coords: Vec<usize>)
        ensures
            coords@ == self.solved_spec(),
            coords@.len() >= 1,
            forall|i: int| 0 <= i < coords@.len() ==> #[trigger] coords@[i] < self.size_spec(),
    ;

    fn get_allowed_turns(&self) -> (turns: Vec<Turn>)
        ensures
            turns@ == self.allowed_spec(),
    ;

    fn apply_turn(&self, coord: usize, turn: &Turn) -> (image: usize)
        requires
            coord < self.size_spec(),
            is_layer_turn(*turn),
        ensures
            image == self.turn_image(coord as nat, *turn),
            image < self.size_spec(),
    ;
}

/// A coordinate read directly off a raw state.
pub trait BasicCoordinate: Coordinate {
    /// The coordinate of a raw state.
    spec fn project(&self, m: CubeModel) -> nat;

    /// A raw state whose coordinate is c.
    spec fn example(&self, c: nat) -> CubeModel;

    /// The raw states this coordinate reads.
    spec fn readable(&self, m: CubeModel) -> bool;

    fn convert_raw_state_to_coord(&self, state: &RawState) -> (coord: usize)
        requires
            state@.wf(),
            self.readable(state@),
        ensures
            coord == self.project(state@),
    ;

    fn convert_coord_to_example_raw_state(&self, coord: usize) -> (state: RawState)
        requires
            coord < self.size_spec(),
        ensures
            state@ == self.example(coord as nat),
            state@.wf(),
            self.readable(state@),
    ;

    /// The coordinate after the turn, through the raw state: take the example state of the
    /// coordinate, apply the turn's effect, read the coordinate back.
    fn apply_raw_turn(&self, coord: usize, turn: &Turn) -> (image: usize)
        requires
            coord < self.size_spec(),
            is_layer_turn(*turn),
        ensures
            image == self.project(effect_applied(self.example(coord as nat), layer_effect(*turn))),
            image < self.size_spec(),
    ;

    /// A turn's image of a coordinate is the one found through the raw state.
    proof fn lemma_turn_image_is_raw(&self, c: nat, t: Turn)
        ensures
            self.turn_image(c, t) == self.project(effect_applied(self.example(c), layer_effect(t))),
    ;
}

pub open spec fn corner_indices(s: Seq<Corner>) -> Seq<usize> {
    s.map_values(|c: Corner| corner_index(c) as usize)
}

pub open spec fn edge_indices(s: Seq<Edge>) -> Seq<usize> {
    s.map_values(|e: Edge| edge_index(e) as usize)
}

pub open spec fn edge_at(i: nat) -> Edge {
    if i == 0 {
        Edge::UB
    } else if i == 1 {
        Edge::UL
    } else if i == 2 {
        Edge::UF
    } else if i == 3 {
        Edge::UR
    } else if i == 4 {
        Edge::BL
    } else if i == 5 {
        Edge::FL
    } else if i == 6 {
        Edge::FR
    } else if i == 7 {
        Edge::BR
    } else if i == 8 {
        Edge::DB
    } else if i == 9 {
        Edge::DL
    } else if i == 10 {
        Edge::DF
    } else {
        Edge::DR
    }
}

pub fn corner_indices_of(corners: &[Corner]) -> (ix: Vec<usize>)
    ensures
        ix@ == corner_indices(corners@),
{
    let mut ix: Vec<usize> = Vec::new();
    let mut i: usize = 0;
    while i < corners.len()
        invariant
            i <= corners@.len(),
            ix@ == corner_indices(corners@.take(i as int)),
        decreases corners@.len() - i,
    {
        ix.push(corners[i].as_index());
        i = i + 1;
        proof {
            assert(ix@ =~= corner_indices(corners@.take(i as int)));
        }
    }
    proof {
        assert(corners@.take(i as int) =~= corners@);
    }
    ix
}

pub fn corners_of_indices(ix: &[usize]) -> (corners: Vec<Corner>)
    requires
        forall|k: int| 0 <= k < ix@.len() ==> #[trigger] ix@[k] < 8,
    ensures
        corners@ == ix@.map_values(|i: usize| corner_at(i as nat)),
        corner_indices(corners@) == ix@,
{
    let mut corners: Vec<Corner> = Vec::new();
    let mut i: usize = 0;
    while i < ix.len()
        invariant
            i <= ix@.len(),
            forall|k: int| 0 <= k < ix@.len() ==> #[trigger] ix@[k] < 8,
            corners@ == ix@.take(i as int).map_values(|i: usize| corner_at(i as nat)),
        decreases ix@.len() - i,
    {
        corners.push(Corner::from_index(ix[i]));
        i = i + 1;
        proof {
            assert(corners@ =~= ix@.take(i as int).map_values(|i: usize| corner_at(i as nat)));
        }
    }
    proof {
        assert(ix@.take(i as int) =~= ix@);
        assert(corner_indices(corners@) =~= ix@);
    }
    corners
}

impl Edge {
    /// The edge whose home position has index i.
    pub fn from_index(i: usize) -> (r: Edge)
        requires
            i < 12,
        ensures
            r == edge_at(i as nat),
            edge_index(r) == i,
    {
        if i == 0 {
            Edge::UB
        } else if i == 1 {
            Edge::UL
        } else if i == 2 {
            Edge::UF
        } else if i == 3 {
            Edge::UR
        } else if i == 4 {
            Edge::BL
        } else if i == 5 {
            Edge::FL
        } else if i == 6 {
            Edge::FR
        } else if i == 7 {
            Edge::BR
        } else if i == 8 {
            Edge::DB
        } else if i == 9 {
            Edge::DL
        } else if i == 10 {
            Edge::DF
        } else {
            Edge::DR
        }
    }
}

pub fn edge_indices_of(edges: &[Edge]) -> (ix: Vec<usize>)
    ensures
        ix@ == edge_indices(edges@),
{
    let mut ix: Vec<usize> = Vec::new();
    let mut i: usize = 0;
    while i < edges.len()
        invariant
            i <= edges@.len(),
            ix@ == edge_indices(edges@.take(i as int)),
        decreases edges@.len() - i,
    {
        ix.push(edges[i].as_index());
        i = i + 1;
        proof {
            assert(ix@ =~= edge_indices(edges@.take(i as int)));
        }
    }
    proof {
        assert(edges@.take(i as int) =~= edges@);
    }
    ix
}

pub fn edges_of_indices(ix: &[usize]) -> (edges: Vec<Edge>)
    requires
        forall|k: int| 0 <= k < ix@.len() ==> #[trigger] ix@[k] < 12,
    ensures
        edges@ == ix@.map_values(|i: usize| edge_at(i as nat)),
        edge_indices(edges@) == ix@,
{
    let mut edges: Vec<Edge> = Vec::new();
    let mut i: usize = 0;
    while i < ix.len()
        invariant
            i <= ix@.len(),
            forall|k: int| 0 <= k < ix@.len() ==> #[trigger] ix@[k] < 12,
            edges@ == ix@.take(i as int).map_values(|i: usize| edge_at(i as nat)),
        decreases ix@.len() - i,
    {
        edges.push(Edge::from_index(ix[i]));
        i = i + 1;
        proof {
            assert(edges@ =~= ix@.take(i as int).map_values(|i: usize| edge_at(i as nat)));
        }
    }
    proof {
        assert(ix@.take(i as int) =~= ix@);
        assert(edge_indices(edges@) =~= ix@);
    }
    edges
}

} // verus!
