//! The raw cube state: what sits at every corner, edge and centre position, and how the
//! base quarter turns of the nine layers act on it.
//!
//! Corners are ordered UBL, UFL, UFR, UBR, DBL, DFL, DFR, DBR; edges UB, UL, UF, UR, BL, FL,
//! FR, BR, DB, DL, DF, DR; centres U, L, F, R, B, D. A piece and its home position share a name.
use vstd::prelude::*;
use crate::turndef::{Turn, base_turns_of};

verus! {

/// A value that can be stored in a state list.
pub trait PieceState {
    fn get_state(&self) -> (r: &Self)
        ensures
            r == self,
    ;
}

/// A value naming a position of a state list.
pub trait PiecePosition {
    spec fn position(&self) -> nat;

    fn as_index(&self) -> (r: usize)
        ensures
            r as nat == self.position(),
    ;
}

impl PiecePosition for usize {
    open spec fn position(&self) -> nat {
        *self as nat
    }

    fn as_index(&self) -> (r: usize) {
        *self
    }
}

#[derive(Clone, Copy, Debug, PartialEq, Eq, Structural)]
pub enum Corner {
    UBL,
    UFL,
    UFR,
    UBR,
    DBL,
    DFL,
    DFR,
    DBR,
}

pub open spec fn corner_index(c: Corner) -> nat {
    match c {
        Corner::UBL => 0,
        Corner::UFL => 1,
        Corner::UFR => 2,
        Corner::UBR => 3,
        Corner::DBL => 4,
        Corner::DFL => 5,
        Corner::DFR => 6,
        Corner::DBR => 7,
    }
}

pub open spec fn corner_at(i: nat) -> Corner {
    if i == 0 {
        Corner::UBL
    } else if i == 1 {
        Corner::UFL
    } else if i == 2 {
        Corner::UFR
    } else if i == 3 {
        Corner::UBR
    } else if i == 4 {
        Corner::DBL
    } else if i == 5 {
        Corner::DFL
    } else if i == 6 {
        Corner::DFR
    } else {
        Corner::DBR
    }
}

impl PiecePosition for Corner {
    open spec fn position(&self) -> nat {
        corner_index(*self)
    }

    fn as_index(&self) -> (r: usize) {
        match self {
            Corner::UBL => 0,
            Corner::UFL => 1,
            Corner::UFR => 2,
            Corner::UBR => 3,
            Corner::DBL => 4,
            Corner::DFL => 5,
            Corner::DFR => 6,
            Corner::DBR => 7,
        }
    }
}

impl PieceState for Corner {
    fn get_state(&self) -> (r: &Self) {
        self
    }
}

impl Corner {
    /// The corner whose home position has index i.
    pub fn from_index(i: usize) -> (r: Corner)
        requires
            i < 8,
        ensures
            r == corner_at(i as nat),
            corner_index(r) == i,
    {
        if i == 0 {
            Corner::UBL
        } else if i == 1 {
            Corner::UFL
        } else if i == 2 {
            Corner::UFR
        } else if i == 3 {
            Corner::UBR
        } else if i == 4 {
            Corner::DBL
        } else if i == 5 {
            Corner::DFL
        } else if i == 6 {
            Corner::DFR
        } else {
            Corner::DBR
        }
    }
}

#[derive(Clone, Copy, Debug, PartialEq, Eq, Structural)]
pub enum Edge {
    UB,
    UL,
    UF,
    UR,
    BL,
    FL,
    FR,
    BR,
    DB,
    DL,
    DF,
    DR,
}

pub open spec fn edge_index(e: Edge) -> nat {
    match e {
        Edge::UB => 0,
        Edge::UL => 1,
        Edge::UF => 2,
        Edge::UR => 3,
        Edge::BL => 4,
        Edge::FL => 5,
        Edge::FR => 6,
        Edge::BR => 7,
        Edge::DB => 8,
        Edge::DL => 9,
        Edge::DF => 10,
        Edge::DR => 11,
    }
}

impl PiecePosition for Edge {
    open spec fn position(&self) -> nat {
        edge_index(*self)
    }

    fn as_index(&self) -> (r: usize) {
        match self {
            Edge::UB => 0,
            Edge::UL => 1,
            Edge::UF => 2,
            Edge::UR => 3,
            Edge::BL => 4,
            Edge::FL => 5,
            Edge::FR => 6,
            Edge::BR => 7,
            Edge::DB => 8,
            Edge::DL => 9,
            Edge::DF => 10,
            Edge::DR => 11,
        }
    }
}

impl PieceState for Edge {
    fn get_state(&self) -> (r: &Self) {
        self
    }
}

#[derive(Clone, Copy, Debug, PartialEq, Eq, Structural)]
pub enum Centre {
    U,
    L,
    F,
    R,
    B,
    D,
}

pub open spec fn centre_index(c: Centre) -> nat {
    match c {
        Centre::U => 0,
        Centre::L => 1,
        Centre::F => 2,
        Centre::R => 3,
        Centre::B => 4,
        Centre::D => 5,
    }
}

impl PiecePosition for Centre {
    open spec fn position(&self) -> nat {
        centre_index(*self)
    }

    fn as_index(&self) -> (r: usize) {
        match self {
            Centre::U => 0,
            Centre::L => 1,
            Centre::F => 2,
            Centre::R => 3,
            Centre::B => 4,
            Centre::D => 5,
        }
    }
}

impl PieceState for Centre {
    fn get_state(&self) -> (r: &Self) {
        self
    }
}

/// Orientation of an edge relative to the FB axis.
#[derive(Clone, Copy, Debug, PartialEq, Eq, Structural)]
pub enum Flip {
    Good,
    Bad,
}

pub open spec fn flip_value(f: Flip) -> nat {
    match f {
        Flip::Good => 0,
        Flip::Bad => 1,
    }
}

/// The flip with value v mod 2.
pub open spec fn flip_of(v: nat) -> Flip {
    if v % 2 == 0 {
        Flip::Good
    } else {
        Flip::Bad
    }
}

pub open spec fn flipped(f: Flip) -> Flip {
    match f {
        Flip::Good => Flip::Bad,
        Flip::Bad => Flip::Good,
    }
}

impl PieceState for Flip {
    fn get_state(&self) -> (r: &Self) {
        self
    }
}

impl Flip {
    pub fn flip(&self) -> (r: Flip)
        ensures
            r == flipped(*self),
    {
        match self {
            Flip::Good => Flip::Bad,
            Flip::Bad => Flip::Good,
        }
    }

    /// The flip with value `value` mod 2.
    pub fn from_value(value: usize) -> (r: Flip)
        ensures
            r == flip_of(value as nat),
    {
        if value % 2 == 0 {
            Flip::Good
        } else {
            Flip::Bad
        }
    }

    pub fn value(&self) -> (r: usize)
        ensures
            r as nat == flip_value(*self),
    {
        match self {
            Flip::Good => 0,
            Flip::Bad => 1,
        }
    }
}

/// Orientation of a corner relative to the UD axis; twists add modulo 3.
#[derive(Clone, Copy, Debug, PartialEq, Eq, Structural)]
pub enum Twist {
    Zero,
    CW,
    ACW,
}

pub open spec fn twist_value(t: Twist) -> nat {
    match t {
        Twist::Zero => 0,
        Twist::CW => 1,
        Twist::ACW => 2,
    }
}

/// The twist with value v mod 3.
pub open spec fn twist_of(v: nat) -> Twist {
    if v % 3 == 0 {
        Twist::Zero
    } else if v % 3 == 1 {
        Twist::CW
    } else {
        Twist::ACW
    }
}

/// The twist with value twist_value(a) + twist_value(b) mod 3.
pub open spec fn twist_sum(a: Twist, b: Twist) -> Twist {
    match (a, b) {
        (Twist::Zero, _) => b,
        (_, Twist::Zero) => a,
        (Twist::CW, Twist::CW) => Twist::ACW,
        (Twist::ACW, Twist::ACW) => Twist::CW,
        _ => Twist::Zero,
    }
}

impl PieceState for Twist {
    fn get_state(&self) -> (r: &Self) {
        self
    }
}

impl Twist {
    pub fn twist_by(&self, amount: &Twist) -> (r: Twist)
        ensures
            r == twist_sum(*self, *amount),
    {
        let current_twist = self.get_state().value();
        let twist_amount = amount.get_state().value();
        Twist::from_value(current_twist + twist_amount)
    }

    /// The twist with value `value` mod 3.
    pub fn from_value(value: usize) -> (r: Twist)
        ensures
            r == twist_of(value as nat),
    {
        if value % 3 == 0 {
            Twist::Zero
        } else if value % 3 == 1 {
            Twist::CW
        } else {
            Twist::ACW
        }
    }

    pub fn value(&self) -> (r: usize)
        ensures
            r as nat == twist_value(*self),
    {
        match self {
            Twist::Zero => 0,
            Twist::CW => 1,
            Twist::ACW => 2,
        }
    }
}

/// Exchange the contents of positions a and b.
pub open spec fn swap_at<S>(s: Seq<S>, a: int, b: int) -> Seq<S> {
    s.update(a, s[b]).update(b, s[a])
}

/// Apply a list of exchanges, first to last.
pub open spec fn swaps_applied<S>(s: Seq<S>, swaps: Seq<(int, int)>) -> Seq<S>
    decreases swaps.len(),
{
    if swaps.len() == 0 {
        s
    } else {
        let last = swaps.last();
        swap_at(swaps_applied(s, swaps.drop_last()), last.0, last.1)
    }
}

/// Flip the edges at the listed positions, first to last.
pub open spec fn flips_applied(s: Seq<Flip>, positions: Seq<int>) -> Seq<Flip>
    decreases positions.len(),
{
    if positions.len() == 0 {
        s
    } else {
        let t = flips_applied(s, positions.drop_last());
        t.update(positions.last(), flipped(t[positions.last()]))
    }
}

/// Twist the corners at the listed positions by the listed amounts, first to last.
pub open spec fn twists_applied(s: Seq<Twist>, twists: Seq<(int, Twist)>) -> Seq<Twist>
    decreases twists.len(),
{
    if twists.len() == 0 {
        s
    } else {
        let t = twists_applied(s, twists.drop_last());
        let last = twists.last();
        t.update(last.0, twist_sum(t[last.0], last.1))
    }
}

pub open spec fn swap_positions<P: PiecePosition>(swaps: Seq<(P, P)>) -> Seq<(int, int)> {
    swaps.map_values(|p: (P, P)| (p.0.position() as int, p.1.position() as int))
}

pub open spec fn swaps_in_range(swaps: Seq<(int, int)>, n: nat) -> bool {
    forall|i: int| 0 <= i < swaps.len() ==> 0 <= #[trigger] swaps[i].0 < n && 0 <= swaps[i].1 < n
}

/// A fixed-length list holding what is at each position.
#[derive(Clone, Debug)]
pub struct StateList<S: PieceState> {
    states: Vec<S>,
}

impl<S: PieceState> View for StateList<S> {
    type V = Seq<S>;

    closed spec fn view(&self) -> Seq<S> {
        self.states@
    }
}

impl<S: PieceState + Copy> StateList<S> {
    pub fn new(states: Vec<S>) -> (r: Self)
        ensures
            r@ == states@,
    {
        StateList { states }
    }

    pub fn get<P: PiecePosition>(&self, position: &P) -> (r: &S)
        requires
            position.position() < self@.len(),
        ensures
            *r == self@[position.position() as int],
    {
        &self.states[position.as_index()]
    }

    pub fn set<P: PiecePosition>(&mut self, position: &P, state: &S)
        requires
            position.position() < old(self)@.len(),
        ensures
            final(self)@ == old(self)@.update(position.position() as int, *state),
    {
        let i = position.as_index();
        self.states.set(i, *state);
    }

    pub fn as_slice(&self) -> (r: &[S])
        ensures
            r@ == self@,
    {
        self.states.as_slice()
    }

    fn apply_swap<P: PiecePosition>(&mut self, swap: &(P, P))
        requires
            swap.0.position() < old(self)@.len(),
            swap.1.position() < old(self)@.len(),
        ensures
            final(self)@ == swap_at(old(self)@, swap.0.position() as int, swap.1.position() as int),
    {
        let first_position = swap.0.as_index();
        let second_position = swap.1.as_index();
        let temp = self.states[first_position];
        let other = self.states[second_position];
        self.states.set(first_position, other);
        self.states.set(second_position, temp);
    }

    pub fn apply_swaps<P: PiecePosition>(&mut self, swaps: &[(P, P)])
        requires
            swaps_in_range(swap_positions(swaps@), old(self)@.len()),
        ensures
            final(self)@ == swaps_applied(old(self)@, swap_positions(swaps@)),
    {
        let ghost start = self@;
        let mut i: usize = 0;
        while i < swaps.len()
            invariant
                i <= swaps@.len(),
                swaps_in_range(swap_positions(swaps@), start.len()),
                self@.len() == start.len(),
                self@ == swaps_applied(start, swap_positions(swaps@).take(i as int)),
            decreases swaps@.len() - i,
        {
            proof {
                let sp = swap_positions(swaps@);
                assert(sp.take(i + 1).drop_last() =~= sp.take(i as int));
                assert(sp[i as int] == (swaps@[i as int].0.position() as int, swaps@[i as int].1.position() as int));
                assert(0 <= sp[i as int].0 < start.len() && 0 <= sp[i as int].1 < start.len());
            }
            self.apply_swap(&swaps[i]);
            i = i + 1;
        }
        proof {
            assert(swap_positions(swaps@).take(i as int) =~= swap_positions(swaps@));
        }
    }
}

pub open spec fn edge_positions(edges: Seq<Edge>) -> Seq<int> {
    edges.map_values(|e: Edge| edge_index(e) as int)
}

pub open spec fn twist_positions(twists: Seq<(Corner, Twist)>) -> Seq<(int, Twist)> {
    twists.map_values(|t: (Corner, Twist)| (corner_index(t.0) as int, t.1))
}

impl StateList<Flip> {
    fn apply_flip(&mut self, flip: Edge)
        requires
            old(self)@.len() == 12,
        ensures
            final(self)@ == old(self)@.update(edge_index(flip) as int, flipped(old(self)@[edge_index(flip) as int])),
    {
        let position = flip;
        let new_state = self.get(&position).flip();
        self.set(&position, &new_state);
    }

    pub fn apply_flips(&mut self, flips: &[Edge])
        requires
            old(self)@.len() == 12,
        ensures
            final(self)@ == flips_applied(old(self)@, edge_positions(flips@)),
    {
        let ghost start = self@;
        let mut i: usize = 0;
        while i < flips.len()
            invariant
                i <= flips@.len(),
                start.len() == 12,
                self@.len() == 12,
                self@ == flips_applied(start, edge_positions(flips@).take(i as int)),
            decreases flips@.len() - i,
        {
            proof {
                assert(edge_positions(flips@).take(i + 1).drop_last() =~= edge_positions(flips@).take(i as int));
            }
            self.apply_flip(flips[i]);
            i = i + 1;
        }
        proof {
            assert(edge_positions(flips@).take(i as int) =~= edge_positions(flips@));
        }
    }
}

impl StateList<Twist> {
    fn apply_twist(&mut self, twist: (Corner, Twist))
        requires
            old(self)@.len() == 8,
        ensures
            final(self)@ == old(self)@.update(
                corner_index(twist.0) as int,
                twist_sum(old(self)@[corner_index(twist.0) as int], twist.1),
            ),
    {
        let position = twist.0;
        let twist_amount = twist.1;
        let new_state = self.get(&position).twist_by(&twist_amount);
        self.set(&position, &new_state);
    }

    pub fn apply_twists(&mut self, twists: &[(Corner, Twist)])
        requires
            old(self)@.len() == 8,
        ensures
            final(self)@ == twists_applied(old(self)@, twist_positions(twists@)),
    {
        let ghost start = self@;
        let mut i: usize = 0;
        while i < twists.len()
            invariant
                i <= twists@.len(),
                start.len() == 8,
                self@.len() == 8,
                self@ == twists_applied(start, twist_positions(twists@).take(i as int)),
            decreases twists@.len() - i,
        {
            proof {
                assert(twist_positions(twists@).take(i + 1).drop_last() =~= twist_positions(twists@).take(i as int));
            }
            self.apply_twist(twists[i]);
            i = i + 1;
        }
        proof {
            assert(twist_positions(twists@).take(i as int) =~= twist_positions(twists@));
        }
    }
}


/// What a raw state holds, position by position.
pub struct CubeModel {
    pub corners: Seq<Corner>,
    pub twists: Seq<Twist>,
    pub edges: Seq<Edge>,
    pub flips: Seq<Flip>,
    pub centres: Seq<Centre>,
}

impl CubeModel {
    pub open spec fn wf(self) -> bool {
        &&& self.corners.len() == 8
        &&& self.twists.len() == 8
        &&& self.edges.len() == 12
        &&& self.flips.len() == 12
        &&& self.centres.len() == 6
    }
}

/// The effect of a turn as position indices: exchanges of corners, then twists of corners
/// (given at the corners' positions after the exchanges), exchanges of edges, then flips of
/// edges, and exchanges of centres.
pub struct EffectModel {
    pub corner_swaps: Seq<(int, int)>,
    pub corner_twists: Seq<(int, Twist)>,
    pub edge_swaps: Seq<(int, int)>,
    pub edge_flips: Seq<int>,
    pub centre_swaps: Seq<(int, int)>,
}

impl EffectModel {
    pub open spec fn wf(self) -> bool {
        &&& swaps_in_range(self.corner_swaps, 8)
        &&& swaps_in_range(self.edge_swaps, 12)
        &&& swaps_in_range(self.centre_swaps, 6)
        &&& forall|i: int| 0 <= i < self.corner_twists.len() ==> 0 <= #[trigger] self.corner_twists[i].0 < 8
        &&& forall|i: int| 0 <= i < self.edge_flips.len() ==> 0 <= #[trigger] self.edge_flips[i] < 12
    }
}

/// The state reached by applying an effect.
pub open spec fn effect_applied(m: CubeModel, e: EffectModel) -> CubeModel {
    CubeModel {
        corners: swaps_applied(m.corners, e.corner_swaps),
        twists: twists_applied(swaps_applied(m.twists, e.corner_swaps), e.corner_twists),
        edges: swaps_applied(m.edges, e.edge_swaps),
        flips: flips_applied(swaps_applied(m.flips, e.edge_swaps), e.edge_flips),
        centres: swaps_applied(m.centres, e.centre_swaps),
    }
}

/// The state reached by applying an effect n times.
pub open spec fn effect_repeated(m: CubeModel, e: EffectModel, n: nat) -> CubeModel
    decreases n,
{
    if n == 0 {
        m
    } else {
        effect_applied(effect_repeated(m, e, (n - 1) as nat), e)
    }
}

pub open spec fn cycle_swaps(a: nat, b: nat, c: nat, d: nat) -> Seq<(int, int)> {
    seq![(a as int, b as int), (b as int, c as int), (c as int, d as int)]
}

pub open spec fn ci(c: Corner) -> nat {
    corner_index(c)
}

pub open spec fn ei(e: Edge) -> nat {
    edge_index(e)
}

pub open spec fn zi(c: Centre) -> nat {
    centre_index(c)
}

pub open spec fn no_swaps() -> Seq<(int, int)> {
    Seq::empty()
}

/// The quarter-turn effect of each of the nine layers, by the layer's turn word.
pub open spec fn layer_effect(t: Turn) -> EffectModel {
    if t.0 == 0x100 {
        EffectModel {
            corner_swaps: cycle_swaps(ci(Corner::UFR), ci(Corner::DFR), ci(Corner::DBR), ci(Corner::UBR)),
            corner_twists: seq![
                (ci(Corner::UBR) as int, Twist::CW),
                (ci(Corner::DBR) as int, Twist::ACW),
                (ci(Corner::DFR) as int, Twist::CW),
                (ci(Corner::UFR) as int, Twist::ACW),
            ],
            edge_swaps: cycle_swaps(ei(Edge::UR), ei(Edge::FR), ei(Edge::DR), ei(Edge::BR)),
            edge_flips: Seq::empty(),
            centre_swaps: no_swaps(),
        }
    } else if t.0 == 0x400 {
        EffectModel {
            corner_swaps: no_swaps(),
            corner_twists: Seq::empty(),
            edge_swaps: cycle_swaps(ei(Edge::UF), ei(Edge::DF), ei(Edge::DB), ei(Edge::UB)),
            edge_flips: seq![ei(Edge::UF) as int, ei(Edge::DF) as int, ei(Edge::DB) as int, ei(Edge::UB) as int],
            centre_swaps: cycle_swaps(zi(Centre::U), zi(Centre::F), zi(Centre::D), zi(Centre::B)),
        }
    } else if t.0 == 0x1000 {
        EffectModel {
            corner_swaps: cycle_swaps(ci(Corner::UFL), ci(Corner::DFL), ci(Corner::DBL), ci(Corner::UBL)),
            corner_twists: seq![
                (ci(Corner::UBL) as int, Twist::ACW),
                (ci(Corner::DBL) as int, Twist::CW),
                (ci(Corner::DFL) as int, Twist::ACW),
                (ci(Corner::UFL) as int, Twist::CW),
            ],
            edge_swaps: cycle_swaps(ei(Edge::UL), ei(Edge::FL), ei(Edge::DL), ei(Edge::BL)),
            edge_flips: Seq::empty(),
            centre_swaps: no_swaps(),
        }
    } else if t.0 == 0x1_0000 {
        EffectModel {
            corner_swaps: cycle_swaps(ci(Corner::UBL), ci(Corner::UFL), ci(Corner::UFR), ci(Corner::UBR)),
            corner_twists: Seq::empty(),
            edge_swaps: cycle_swaps(ei(Edge::UB), ei(Edge::UL), ei(Edge::UF), ei(Edge::UR)),
            edge_flips: Seq::empty(),
            centre_swaps: no_swaps(),
        }
    } else if t.0 == 0x4_0000 {
        EffectModel {
            corner_swaps: no_swaps(),
            corner_twists: Seq::empty(),
            edge_swaps: cycle_swaps(ei(Edge::BL), ei(Edge::FL), ei(Edge::FR), ei(Edge::BR)),
            edge_flips: seq![ei(Edge::BL) as int, ei(Edge::FL) as int, ei(Edge::FR) as int, ei(Edge::BR) as int],
            centre_swaps: cycle_swaps(zi(Centre::L), zi(Centre::F), zi(Centre::R), zi(Centre::B)),
        }
    } else if t.0 == 0x10_0000 {
        EffectModel {
            corner_swaps: cycle_swaps(ci(Corner::DBL), ci(Corner::DFL), ci(Corner::DFR), ci(Corner::DBR)),
            corner_twists: Seq::empty(),
            edge_swaps: cycle_swaps(ei(Edge::DB), ei(Edge::DL), ei(Edge::DF), ei(Edge::DR)),
            edge_flips: Seq::empty(),
            centre_swaps: no_swaps(),
        }
    } else if t.0 == 0x100_0000 {
        EffectModel {
            corner_swaps: cycle_swaps(ci(Corner::UFL), ci(Corner::DFL), ci(Corner::DFR), ci(Corner::UFR)),
            corner_twists: seq![
                (ci(Corner::UFL) as int, Twist::ACW),
                (ci(Corner::DFL) as int, Twist::CW),
                (ci(Corner::DFR) as int, Twist::ACW),
                (ci(Corner::UFR) as int, Twist::CW),
            ],
            edge_swaps: cycle_swaps(ei(Edge::UF), ei(Edge::FL), ei(Edge::DF), ei(Edge::FR)),
            edge_flips: seq![ei(Edge::UF) as int, ei(Edge::FL) as int, ei(Edge::DF) as int, ei(Edge::FR) as int],
            centre_swaps: no_swaps(),
        }
    } else if t.0 == 0x400_0000 {
        EffectModel {
            corner_swaps: no_swaps(),
            corner_twists: Seq::empty(),
            edge_swaps: cycle_swaps(ei(Edge::UL), ei(Edge::DL), ei(Edge::DR), ei(Edge::UR)),
            edge_flips: seq![ei(Edge::UL) as int, ei(Edge::DL) as int, ei(Edge::DR) as int, ei(Edge::UR) as int],
            centre_swaps: cycle_swaps(zi(Centre::U), zi(Centre::L), zi(Centre::D), zi(Centre::R)),
        }
    } else {
        EffectModel {
            corner_swaps: cycle_swaps(ci(Corner::UBL), ci(Corner::DBL), ci(Corner::DBR), ci(Corner::UBR)),
            corner_twists: seq![
                (ci(Corner::UBL) as int, Twist::CW),
                (ci(Corner::DBL) as int, Twist::ACW),
                (ci(Corner::DBR) as int, Twist::CW),
                (ci(Corner::UBR) as int, Twist::ACW),
            ],
            edge_swaps: cycle_swaps(ei(Edge::UB), ei(Edge::BL), ei(Edge::DB), ei(Edge::BR)),
            edge_flips: Seq::empty(),
            centre_swaps: no_swaps(),
        }
    }
}

/// One of the nine single-layer quarter turns R, M, L, U, E, D, F, S, B.
pub open spec fn is_layer_turn(t: Turn) -> bool {
    t.0 == 0x100 || t.0 == 0x400 || t.0 == 0x1000 || t.0 == 0x1_0000 || t.0 == 0x4_0000
        || t.0 == 0x10_0000 || t.0 == 0x100_0000 || t.0 == 0x400_0000 || t.0 == 0x1000_0000
}

/// A raw cube state: corner positions, corner twists, edge positions, edge flips and centre
/// positions.
#[derive(Clone, Debug)]
pub struct RawState {
    pub corners: StateList<Corner>,
    pub twists: StateList<Twist>,
    pub edges: StateList<Edge>,
    pub flips: StateList<Flip>,
    pub centers: StateList<Centre>,
}

impl View for RawState {
    type V = CubeModel;

    open spec fn view(&self) -> CubeModel {
        CubeModel {
            corners: self.corners@,
            twists: self.twists@,
            edges: self.edges@,
            flips: self.flips@,
            centres: self.centers@,
        }
    }
}

pub open spec fn solved_model() -> CubeModel {
    CubeModel {
        corners: Seq::new(8, |i: int| corner_at(i as nat)),
        twists: Seq::new(8, |i: int| Twist::Zero),
        edges: seq![
            Edge::UB,
            Edge::UL,
            Edge::UF,
            Edge::UR,
            Edge::BL,
            Edge::FL,
            Edge::FR,
            Edge::BR,
            Edge::DB,
            Edge::DL,
            Edge::DF,
            Edge::DR,
        ],
        flips: Seq::new(12, |i: int| Flip::Good),
        centres: seq![Centre::U, Centre::L, Centre::F, Centre::R, Centre::B, Centre::D],
    }
}

impl RawState {
    /// The solved cube: every piece at its home position, with no twist or flip.
    pub fn solved() -> (r: RawState)
        ensures
            r@ == solved_model(),
            r@.wf(),
    {
        let r = RawState {
            corners: StateList::new(vec![Corner::UBL, Corner::UFL, Corner::UFR, Corner::UBR, Corner::DBL, Corner::DFL, Corner::DFR, Corner::DBR]),
            twists: StateList::new(vec![Twist::Zero, Twist::Zero, Twist::Zero, Twist::Zero, Twist::Zero, Twist::Zero, Twist::Zero, Twist::Zero]),
            edges: StateList::new(vec![Edge::UB, Edge::UL, Edge::UF, Edge::UR, Edge::BL, Edge::FL, Edge::FR, Edge::BR, Edge::DB, Edge::DL, Edge::DF, Edge::DR]),
            flips: StateList::new(vec![Flip::Good, Flip::Good, Flip::Good, Flip::Good, Flip::Good, Flip::Good, Flip::Good, Flip::Good, Flip::Good, Flip::Good, Flip::Good, Flip::Good]),
            centers: StateList::new(vec![Centre::U, Centre::L, Centre::F, Centre::R, Centre::B, Centre::D]),
        };
        proof {
            assert(r@.corners =~= solved_model().corners);
            assert(r@.twists =~= solved_model().twists);
            assert(r@.edges =~= solved_model().edges);
            assert(r@.flips =~= solved_model().flips);
            assert(r@.centres =~= solved_model().centres);
        }
        r
    }
}

/// The effect of a single-layer quarter turn.
pub struct TurnEffect {
    corner_swaps: Vec<(Corner, Corner)>,
    corner_twists: Vec<(Corner, Twist)>,
    edge_swaps: Vec<(Edge, Edge)>,
    edge_flips: Vec<Edge>,
    center_swaps: Vec<(Centre, Centre)>,
}

impl View for TurnEffect {
    type V = EffectModel;

    closed spec fn view(&self) -> EffectModel {
        EffectModel {
            corner_swaps: swap_positions(self.corner_swaps@),
            corner_twists: twist_positions(self.corner_twists@),
            edge_swaps: swap_positions(self.edge_swaps@),
            edge_flips: edge_positions(self.edge_flips@),
            centre_swaps: swap_positions(self.center_swaps@),
        }
    }
}

impl TurnEffect {
    pub open spec fn wf(&self) -> bool {
        self@.wf()
    }

    pub fn apply(&self, state: &mut RawState)
        requires
            self.wf(),
            old(state)@.wf(),
        ensures
            final(state)@ == effect_applied(old(state)@, self@),
            final(state)@.wf(),
    {
        self.apply_corners_only(state);
        self.apply_twists_only(state);
        self.apply_edges_only(state);
        self.apply_flips_only(state);
        self.apply_centers_only(state);
    }

    pub fn apply_corners_only(&self, state: &mut RawState)
        requires
            self.wf(),
            old(state)@.wf(),
        ensures
            final(state)@ == (CubeModel { corners: effect_applied(old(state)@, self@).corners, ..old(state)@ }),
            final(state)@.wf(),
    {
        self.apply_to_corners_statelist(&mut state.corners);
    }

    pub fn apply_twists_only(&self, state: &mut RawState)
        requires
            self.wf(),
            old(state)@.wf(),
        ensures
            final(state)@ == (CubeModel { twists: effect_applied(old(state)@, self@).twists, ..old(state)@ }),
            final(state)@.wf(),
    {
        self.apply_to_twists_statelist(&mut state.twists);
    }

    pub fn apply_edges_only(&self, state: &mut RawState)
        requires
            self.wf(),
            old(state)@.wf(),
        ensures
            final(state)@ == (CubeModel { edges: effect_applied(old(state)@, self@).edges, ..old(state)@ }),
            final(state)@.wf(),
    {
        self.apply_to_edges_statelist(&mut state.edges);
    }

    pub fn apply_flips_only(&self, state: &mut RawState)
        requires
            self.wf(),
            old(state)@.wf(),
        ensures
            final(state)@ == (CubeModel { flips: effect_applied(old(state)@, self@).flips, ..old(state)@ }),
            final(state)@.wf(),
    {
        self.apply_to_flips_statelist(&mut state.flips);
    }

    pub fn apply_centers_only(&self, state: &mut RawState)
        requires
            self.wf(),
            old(state)@.wf(),
        ensures
            final(state)@ == (CubeModel { centres: effect_applied(old(state)@, self@).centres, ..old(state)@ }),
            final(state)@.wf(),
    {
        self.apply_to_centers_statelist(&mut state.centers);
    }

    pub fn apply_to_corners_statelist(&self, state: &mut StateList<Corner>)
        requires
            self.wf(),
            old(state)@.len() == 8,
        ensures
            final(state)@ == swaps_applied(old(state)@, self@.corner_swaps),
            final(state)@.len() == 8,
    {
        state.apply_swaps(self.corner_swaps.as_slice());
        proof {
            lemma_swaps_len(old(state)@, self@.corner_swaps);
        }
    }

    pub fn apply_to_twists_statelist(&self, state: &mut StateList<Twist>)
        requires
            self.wf(),
            old(state)@.len() == 8,
        ensures
            final(state)@ == twists_applied(swaps_applied(old(state)@, self@.corner_swaps), self@.corner_twists),
            final(state)@.len() == 8,
    {
        state.apply_swaps(self.corner_swaps.as_slice());
        proof {
            lemma_swaps_len(old(state)@, self@.corner_swaps);
        }
        let ghost mid = state@;
        state.apply_twists(self.corner_twists.as_slice());
        proof {
            lemma_twists_len(mid, self@.corner_twists);
        }
    }

    pub fn apply_to_edges_statelist(&self, state: &mut StateList<Edge>)
        requires
            self.wf(),
            old(state)@.len() == 12,
        ensures
            final(state)@ == swaps_applied(old(state)@, self@.edge_swaps),
            final(state)@.len() == 12,
    {
        state.apply_swaps(self.edge_swaps.as_slice());
        proof {
            lemma_swaps_len(old(state)@, self@.edge_swaps);
        }
    }

    pub fn apply_to_flips_statelist(&self, state: &mut StateList<Flip>)
        requires
            self.wf(),
            old(state)@.len() == 12,
        ensures
            final(state)@ == flips_applied(swaps_applied(old(state)@, self@.edge_swaps), self@.edge_flips),
            final(state)@.len() == 12,
    {
        state.apply_swaps(self.edge_swaps.as_slice());
        proof {
            lemma_swaps_len(old(state)@, self@.edge_swaps);
        }
        let ghost mid = state@;
        state.apply_flips(self.edge_flips.as_slice());
        proof {
            lemma_flips_len(mid, self@.edge_flips);
        }
    }

    pub fn apply_to_centers_statelist(&self, state: &mut StateList<Centre>)
        requires
            self.wf(),
            old(state)@.len() == 6,
        ensures
            final(state)@ == swaps_applied(old(state)@, self@.centre_swaps),
            final(state)@.len() == 6,
    {
        state.apply_swaps(self.center_swaps.as_slice());
        proof {
            lemma_swaps_len(old(state)@, self@.centre_swaps);
        }
    }
}

pub proof fn lemma_swaps_len<S>(s: Seq<S>, swaps: Seq<(int, int)>)
    requires
        swaps_in_range(swaps, s.len()),
    ensures
        swaps_applied(s, swaps).len() == s.len(),
    decreases swaps.len(),
{
    if swaps.len() > 0 {
        assert(swaps_in_range(swaps.drop_last(), s.len()));
        lemma_swaps_len(s, swaps.drop_last());
        assert(swaps[swaps.len() - 1] == swaps.last());
    }
}

pub proof fn lemma_flips_len(s: Seq<Flip>, positions: Seq<int>)
    requires
        forall|i: int| 0 <= i < positions.len() ==> 0 <= #[trigger] positions[i] < s.len(),
    ensures
        flips_applied(s, positions).len() == s.len(),
    decreases positions.len(),
{
    if positions.len() > 0 {
        lemma_flips_len(s, positions.drop_last());
        assert(positions[positions.len() - 1] == positions.last());
    }
}

pub proof fn lemma_twists_len(s: Seq<Twist>, twists: Seq<(int, Twist)>)
    requires
        forall|i: int| 0 <= i < twists.len() ==> 0 <= #[trigger] twists[i].0 < s.len(),
    ensures
        twists_applied(s, twists).len() == s.len(),
    decreases twists.len(),
{
    if twists.len() > 0 {
        lemma_twists_len(s, twists.drop_last());
        assert(twists[twists.len() - 1] == twists.last());
    }
}

impl TurnEffect {
    fn right_layer_effect() -> (e: TurnEffect)
        ensures
            e@ == layer_effect(Turn(0x100)),
    {
        let e = TurnEffect {
            corner_swaps: vec![(Corner::UFR, Corner::DFR), (Corner::DFR, Corner::DBR), (Corner::DBR, Corner::UBR)],
            corner_twists: vec![(Corner::UBR, Twist::CW), (Corner::DBR, Twist::ACW), (Corner::DFR, Twist::CW), (Corner::UFR, Twist::ACW)],
            edge_swaps: vec![(Edge::UR, Edge::FR), (Edge::FR, Edge::DR), (Edge::DR, Edge::BR)],
            edge_flips: vec![],
            center_swaps: vec![],
        };
        proof {
            let l = layer_effect(Turn(0x100));
            assert(e@.corner_swaps =~= l.corner_swaps);
            assert(e@.corner_twists =~= l.corner_twists);
            assert(e@.edge_swaps =~= l.edge_swaps);
            assert(e@.edge_flips =~= l.edge_flips);
            assert(e@.centre_swaps =~= l.centre_swaps);
        }
        e
    }

    fn middle_layer_effect() -> (e: TurnEffect)
        ensures
            e@ == layer_effect(Turn(0x400)),
    {
        let e = TurnEffect {
            corner_swaps: vec![],
            corner_twists: vec![],
            edge_swaps: vec![(Edge::UF, Edge::DF), (Edge::DF, Edge::DB), (Edge::DB, Edge::UB)],
            edge_flips: vec![Edge::UF, Edge::DF, Edge::DB, Edge::UB],
            center_swaps: vec![(Centre::U, Centre::F), (Centre::F, Centre::D), (Centre::D, Centre::B)],
        };
        proof {
            let l = layer_effect(Turn(0x400));
            assert(e@.corner_swaps =~= l.corner_swaps);
            assert(e@.corner_twists =~= l.corner_twists);
            assert(e@.edge_swaps =~= l.edge_swaps);
            assert(e@.edge_flips =~= l.edge_flips);
            assert(e@.centre_swaps =~= l.centre_swaps);
        }
        e
    }

    fn left_layer_effect() -> (e: TurnEffect)
        ensures
            e@ == layer_effect(Turn(0x1000)),
    {
        let e = TurnEffect {
            corner_swaps: vec![(Corner::UFL, Corner::DFL), (Corner::DFL, Corner::DBL), (Corner::DBL, Corner::UBL)],
            corner_twists: vec![(Corner::UBL, Twist::ACW), (Corner::DBL, Twist::CW), (Corner::DFL, Twist::ACW), (Corner::UFL, Twist::CW)],
            edge_swaps: vec![(Edge::UL, Edge::FL), (Edge::FL, Edge::DL), (Edge::DL, Edge::BL)],
            edge_flips: vec![],
            center_swaps: vec![],
        };
        proof {
            let l = layer_effect(Turn(0x1000));
            assert(e@.corner_swaps =~= l.corner_swaps);
            assert(e@.corner_twists =~= l.corner_twists);
            assert(e@.edge_swaps =~= l.edge_swaps);
            assert(e@.edge_flips =~= l.edge_flips);
            assert(e@.centre_swaps =~= l.centre_swaps);
        }
        e
    }

    fn up_layer_effect() -> (e: TurnEffect)
        ensures
            e@ == layer_effect(Turn(0x1_0000)),
    {
        let e = TurnEffect {
            corner_swaps: vec![(Corner::UBL, Corner::UFL), (Corner::UFL, Corner::UFR), (Corner::UFR, Corner::UBR)],
            corner_twists: vec![],
            edge_swaps: vec![(Edge::UB, Edge::UL), (Edge::UL, Edge::UF), (Edge::UF, Edge::UR)],
            edge_flips: vec![],
            center_swaps: vec![],
        };
        proof {
            let l = layer_effect(Turn(0x1_0000));
            assert(e@.corner_swaps =~= l.corner_swaps);
            assert(e@.corner_twists =~= l.corner_twists);
            assert(e@.edge_swaps =~= l.edge_swaps);
            assert(e@.edge_flips =~= l.edge_flips);
            assert(e@.centre_swaps =~= l.centre_swaps);
        }
        e
    }

    fn equator_layer_effect() -> (e: TurnEffect)
        ensures
            e@ == layer_effect(Turn(0x4_0000)),
    {
        let e = TurnEffect {
            corner_swaps: vec![],
            corner_twists: vec![],
            edge_swaps: vec![(Edge::BL, Edge::FL), (Edge::FL, Edge::FR), (Edge::FR, Edge::BR)],
            edge_flips: vec![Edge::BL, Edge::FL, Edge::FR, Edge::BR],
            center_swaps: vec![(Centre::L, Centre::F), (Centre::F, Centre::R), (Centre::R, Centre::B)],
        };
        proof {
            let l = layer_effect(Turn(0x4_0000));
            assert(e@.corner_swaps =~= l.corner_swaps);
            assert(e@.corner_twists =~= l.corner_twists);
            assert(e@.edge_swaps =~= l.edge_swaps);
            assert(e@.edge_flips =~= l.edge_flips);
            assert(e@.centre_swaps =~= l.centre_swaps);
        }
        e
    }

    fn down_layer_effect() -> (e: TurnEffect)
        ensures
            e@ == layer_effect(Turn(0x10_0000)),
    {
        let e = TurnEffect {
            corner_swaps: vec![(Corner::DBL, Corner::DFL), (Corner::DFL, Corner::DFR), (Corner::DFR, Corner::DBR)],
            corner_twists: vec![],
            edge_swaps: vec![(Edge::DB, Edge::DL), (Edge::DL, Edge::DF), (Edge::DF, Edge::DR)],
            edge_flips: vec![],
            center_swaps: vec![],
        };
        proof {
            let l = layer_effect(Turn(0x10_0000));
            assert(e@.corner_swaps =~= l.corner_swaps);
            assert(e@.corner_twists =~= l.corner_twists);
            assert(e@.edge_swaps =~= l.edge_swaps);
            assert(e@.edge_flips =~= l.edge_flips);
            assert(e@.centre_swaps =~= l.centre_swaps);
        }
        e
    }

    fn front_layer_effect() -> (e: TurnEffect)
        ensures
            e@ == layer_effect(Turn(0x100_0000)),
    {
        let e = TurnEffect {
            corner_swaps: vec![(Corner::UFL, Corner::DFL), (Corner::DFL, Corner::DFR), (Corner::DFR, Corner::UFR)],
            corner_twists: vec![(Corner::UFL, Twist::ACW), (Corner::DFL, Twist::CW), (Corner::DFR, Twist::ACW), (Corner::UFR, Twist::CW)],
            edge_swaps: vec![(Edge::UF, Edge::FL), (Edge::FL, Edge::DF), (Edge::DF, Edge::FR)],
            edge_flips: vec![Edge::UF, Edge::FL, Edge::DF, Edge::FR],
            center_swaps: vec![],
        };
        proof {
            let l = layer_effect(Turn(0x100_0000));
            assert(e@.corner_swaps =~= l.corner_swaps);
            assert(e@.corner_twists =~= l.corner_twists);
            assert(e@.edge_swaps =~= l.edge_swaps);
            assert(e@.edge_flips =~= l.edge_flips);
            assert(e@.centre_swaps =~= l.centre_swaps);
        }
        e
    }

    fn slice_layer_effect() -> (e: TurnEffect)
        ensures
            e@ == layer_effect(Turn(0x400_0000)),
    {
        let e = TurnEffect {
            corner_swaps: vec![],
            corner_twists: vec![],
            edge_swaps: vec![(Edge::UL, Edge::DL), (Edge::DL, Edge::DR), (Edge::DR, Edge::UR)],
            edge_flips: vec![Edge::UL, Edge::DL, Edge::DR, Edge::UR],
            center_swaps: vec![(Centre::U, Centre::L), (Centre::L, Centre::D), (Centre::D, Centre::R)],
        };
        proof {
            let l = layer_effect(Turn(0x400_0000));
            assert(e@.corner_swaps =~= l.corner_swaps);
            assert(e@.corner_twists =~= l.corner_twists);
            assert(e@.edge_swaps =~= l.edge_swaps);
            assert(e@.edge_flips =~= l.edge_flips);
            assert(e@.centre_swaps =~= l.centre_swaps);
        }
        e
    }

    fn back_layer_effect() -> (e: TurnEffect)
        ensures
            e@ == layer_effect(Turn(0x1000_0000)),
    {
        let e = TurnEffect {
            corner_swaps: vec![(Corner::UBL, Corner::DBL), (Corner::DBL, Corner::DBR), (Corner::DBR, Corner::UBR)],
            corner_twists: vec![(Corner::UBL, Twist::CW), (Corner::DBL, Twist::ACW), (Corner::DBR, Twist::CW), (Corner::UBR, Twist::ACW)],
            edge_swaps: vec![(Edge::UB, Edge::BL), (Edge::BL, Edge::DB), (Edge::DB, Edge::BR)],
            edge_flips: vec![],
            center_swaps: vec![],
        };
        proof {
            let l = layer_effect(Turn(0x1000_0000));
            assert(e@.corner_swaps =~= l.corner_swaps);
            assert(e@.corner_twists =~= l.corner_twists);
            assert(e@.edge_swaps =~= l.edge_swaps);
            assert(e@.edge_flips =~= l.edge_flips);
            assert(e@.centre_swaps =~= l.centre_swaps);
        }
        e
    }

    /// The quarter-turn effect of one of the nine layers. Compound turns have no effect of
    /// their own: they are applied as their base turns in order.
    pub fn from_turn(turn: &Turn) -> (e: TurnEffect)
        requires
            is_layer_turn(*turn),
        ensures
            e@ == layer_effect(*turn),
            e.wf(),
    {
        let e = if turn.0 == 0x100 {
            TurnEffect::right_layer_effect()
        } else if turn.0 == 0x400 {
            TurnEffect::middle_layer_effect()
        } else if turn.0 == 0x1000 {
            TurnEffect::left_layer_effect()
        } else if turn.0 == 0x1_0000 {
            TurnEffect::up_layer_effect()
        } else if turn.0 == 0x4_0000 {
            TurnEffect::equator_layer_effect()
        } else if turn.0 == 0x10_0000 {
            TurnEffect::down_layer_effect()
        } else if turn.0 == 0x100_0000 {
            TurnEffect::front_layer_effect()
        } else if turn.0 == 0x400_0000 {
            TurnEffect::slice_layer_effect()
        } else {
            TurnEffect::back_layer_effect()
        };
        proof {
            lemma_layer_effect_wf(*turn);
        }
        e
    }
}

pub proof fn lemma_layer_effect_wf(t: Turn)
    requires
        is_layer_turn(t),
    ensures
        layer_effect(t).wf(),
{
}

/// The state reached by the quarter turns ts, in order.
pub open spec fn effects_applied(m: CubeModel, ts: Seq<Turn>) -> CubeModel
    decreases ts.len(),
{
    if ts.len() == 0 {
        m
    } else {
        effect_applied(effects_applied(m, ts.drop_last()), layer_effect(ts.last()))
    }
}

impl RawState {
    /// Apply a turn: the effects of its base turns, in order.
    pub fn apply_turn(&mut self, turn: &Turn)
        requires
            old(self)@.wf(),
            forall|k: int| 0 <= k < base_turns_of(*turn).len() ==> is_layer_turn(#[trigger] base_turns_of(*turn)[k]),
        ensures
            final(self)@ == effects_applied(old(self)@, base_turns_of(*turn)),
            final(self)@.wf(),
    {
        let base_turns = turn.to_base_turns();
        let ghost start = self@;
        let mut i: usize = 0;
        proof {
            assert(base_turns@.take(0) =~= Seq::<Turn>::empty());
        }
        while i < base_turns.len()
            invariant
                base_turns@ == base_turns_of(*turn),
                forall|k: int| 0 <= k < base_turns@.len() ==> is_layer_turn(#[trigger] base_turns@[k]),
                i <= base_turns@.len(),
                self@.wf(),
                self@ == effects_applied(start, base_turns@.take(i as int)),
            decreases base_turns@.len() - i,
        {
            let effect = TurnEffect::from_turn(&base_turns[i]);
            effect.apply(self);
            proof {
                assert(base_turns@.take(i + 1).drop_last() =~= base_turns@.take(i as int));
                assert(base_turns@.take(i + 1).last() == base_turns@[i as int]);
            }
            i = i + 1;
        }
        proof {
            assert(base_turns@.take(i as int) =~= base_turns@);
        }
    }
}

} // verus!
