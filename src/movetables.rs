//! Move tables: for a coordinate type and each turn of a move set, the image of every
//! coordinate under the turn.
use vstd::prelude::*;
use crate::coordinate::{Coordinate, BasicCoordinate};
use crate::rawcube::is_layer_turn;
use crate::turndef::{Turn, base_turns_of, is_single_field, lemma_base_turns_of_single, lemma_layer_turns_single};
use crate::rawcube::{effect_applied, layer_effect};

verus! {

/// The coordinate reached from c by the quarter turns ts, in order.
pub open spec fn turns_image<C: Coordinate>(coord_type: C, c: nat, ts: Seq<Turn>) -> nat
    decreases ts.len(),
{
    if ts.len() == 0 {
        c
    } else {
        coord_type.turn_image(turns_image(coord_type, c, ts.drop_last()), ts.last())
    }
}

/// The coordinate reached from c by the turn t: its base turns in order.
pub open spec fn turn_word_image<C: Coordinate>(coord_type: C, c: nat, t: Turn) -> nat {
    turns_image(coord_type, c, base_turns_of(t))
}

/// Every base turn of every turn of the set is a quarter turn of a single layer.
pub open spec fn layer_turns_only(move_set: Seq<Turn>) -> bool {
    forall|i: int, k: int|
        0 <= i < move_set.len() && 0 <= k < base_turns_of(move_set[i]).len()
            ==> is_layer_turn(#[trigger] base_turns_of(move_set[i])[k])
}

proof fn lemma_turns_image_push<C: Coordinate>(coord_type: C, c: nat, ts: Seq<Turn>, t: Turn)
    ensures
        turns_image(coord_type, c, ts.push(t)) == coord_type.turn_image(turns_image(coord_type, c, ts), t),
{
    assert(ts.push(t).drop_last() =~= ts);
    assert(ts.push(t).last() == t);
}

proof fn lemma_turns_image_single<C: Coordinate>(coord_type: C, c: nat, t: Turn)
    ensures
        turns_image(coord_type, c, seq![t]) == coord_type.turn_image(c, t),
{
    lemma_turns_image_push(coord_type, c, Seq::<Turn>::empty(), t);
    assert(Seq::<Turn>::empty().push(t) =~= seq![t]);
}

/// A turn of the move set, or one of the base turns a turn of the move set is made of.
pub open spec fn from_move_set(move_set: Seq<Turn>, t: Turn) -> bool {
    ||| move_set.contains(t)
    ||| exists|i: int, k: int| 0 <= i < move_set.len() && 0 <= k < base_turns_of(move_set[i]).len() && #[trigger] base_turns_of(move_set[i])[k] == t
}

/// The turns of ts, each at its first occurrence.
pub open spec fn first_occurrences(ts: Seq<Turn>) -> Seq<Turn>
    decreases ts.len(),
{
    if ts.len() == 0 {
        Seq::empty()
    } else {
        let r = first_occurrences(ts.drop_last());
        if r.contains(ts.last()) {
            r
        } else {
            r.push(ts.last())
        }
    }
}

/// The first occurrences hold each turn of ts once, and are ts itself when ts repeats none.
pub proof fn lemma_first_occurrences(ts: Seq<Turn>)
    ensures
        first_occurrences(ts).no_duplicates(),
        forall|t: Turn| first_occurrences(ts).contains(t) <==> ts.contains(t),
        ts.no_duplicates() ==> first_occurrences(ts) == ts,
    decreases ts.len(),
{
    if ts.len() > 0 {
        let d = ts.drop_last();
        lemma_first_occurrences(d);
        let r = first_occurrences(d);
        assert forall|t: Turn| ts.contains(t) <==> (d.contains(t) || t == ts.last()) by {
            if ts.contains(t) {
                let j = choose|j: int| 0 <= j < ts.len() && ts[j] == t;
                if j < ts.len() - 1 {
                    assert(d[j] == t);
                }
            }
            if d.contains(t) {
                let j = choose|j: int| 0 <= j < d.len() && d[j] == t;
                assert(ts[j] == t);
            }
            if t == ts.last() {
                assert(ts[ts.len() - 1] == t);
            }
        }
        if !r.contains(ts.last()) {
            let p = r.push(ts.last());
            assert forall|t: Turn| p.contains(t) <==> (r.contains(t) || t == ts.last()) by {
                if p.contains(t) {
                    let j = choose|j: int| 0 <= j < p.len() && p[j] == t;
                    if j < r.len() {
                        assert(r[j] == t);
                    }
                }
                if r.contains(t) {
                    let j = choose|j: int| 0 <= j < r.len() && r[j] == t;
                    assert(p[j] == t);
                }
                if t == ts.last() {
                    assert(p[r.len() as int] == t);
                }
            }
            assert forall|a: int, b: int| 0 <= a < p.len() && 0 <= b < p.len() && a != b implies p[a] != p[b] by {
                if a == r.len() {
                    assert(r.contains(p[b]));
                } else if b == r.len() {
                    assert(r.contains(p[a]));
                }
            }
        }
        if ts.no_duplicates() {
            assert(d.no_duplicates()) by {
                assert forall|a: int, b: int| 0 <= a < d.len() && 0 <= b < d.len() && a != b implies d[a] != d[b] by {
                    assert(d[a] == ts[a] && d[b] == ts[b]);
                }
            }
            assert(!d.contains(ts.last())) by {
                if d.contains(ts.last()) {
                    let j = choose|j: int| 0 <= j < d.len() && d[j] == ts.last();
                    assert(ts[j] == ts[ts.len() - 1]);
                }
            }
            assert(ts =~= d.push(ts.last()));
        }
    }
}

/// One turn's table.
struct MoveTable {
    table: Vec<usize>,
}

impl MoveTable {
    fn generate_from_base_turn<C: BasicCoordinate>(coord_type: &C, turn: &Turn) -> (r: Self)
        requires
            is_layer_turn(*turn),
            is_single_field(*turn),
        ensures
            r.table@.len() == coord_type.size_spec(),
            forall|c: int| 0 <= c < coord_type.size_spec() ==> {
                &&& #[trigger] r.table@[c] < coord_type.size_spec()
                &&& r.table@[c] == turn_word_image(*coord_type, c as nat, *turn)
            },
    {
        let size = coord_type.get_size();
        let mut table: Vec<usize> = Vec::new();
        proof {
            lemma_base_turns_of_single(*turn);
            assert(seq![*turn].drop_last() =~= Seq::<Turn>::empty());
        }
        let mut coord: usize = 0;
        while coord < size
            invariant
                size == coord_type.size_spec(),
                coord <= size,
                table@.len() == coord,
                base_turns_of(*turn) == seq![*turn],
                is_layer_turn(*turn),
                forall|c: int| 0 <= c < coord ==> {
                    &&& #[trigger] table@[c] < size
                    &&& table@[c] == turn_word_image(*coord_type, c as nat, *turn)
                },
            decreases size - coord,
        {
            let new_coord = coord_type.apply_turn(coord, turn);
            proof {
                lemma_turns_image_single(*coord_type, coord as nat, *turn);
            }
            table.push(new_coord);
            coord = coord + 1;
        }
        Self { table }
    }

    fn generate_from_compound_turn<C: Coordinate>(coord_type: Ghost<C>, turn: &Turn, size: usize, move_tables: &MoveTables) -> (r: Self)
        requires
            move_tables.wf(),
            move_tables.size_spec() == size,
            size == coord_type@.size_spec(),
            forall|c: nat, t: Turn| #[trigger] move_tables.image(c, t) == turn_word_image(coord_type@, c, t),
            forall|k: int| 0 <= k < base_turns_of(*turn).len() ==> move_tables.turns_spec().contains(#[trigger] base_turns_of(*turn)[k]),
            forall|k: int| 0 <= k < base_turns_of(*turn).len() ==> is_single_field(#[trigger] base_turns_of(*turn)[k]),
        ensures
            r.table@.len() == size,
            forall|c: int| 0 <= c < size ==> {
                &&& #[trigger] r.table@[c] < size
                &&& r.table@[c] == turn_word_image(coord_type@, c as nat, *turn)
            },
    {
        let mut table: Vec<usize> = Vec::new();
        let base_turns = turn.to_base_turns();
        let mut coord: usize = 0;
        while coord < size
            invariant
                move_tables.wf(),
                move_tables.size_spec() == size,
                size == coord_type@.size_spec(),
                forall|c: nat, t: Turn| #[trigger] move_tables.image(c, t) == turn_word_image(coord_type@, c, t),
                base_turns@ == base_turns_of(*turn),
                forall|k: int| 0 <= k < base_turns@.len() ==> move_tables.turns_spec().contains(#[trigger] base_turns@[k]),
                forall|k: int| 0 <= k < base_turns@.len() ==> is_single_field(#[trigger] base_turns@[k]),
                coord <= size,
                table@.len() == coord,
                forall|c: int| 0 <= c < coord ==> {
                    &&& #[trigger] table@[c] < size
                    &&& table@[c] == turn_word_image(coord_type@, c as nat, *turn)
                },
            decreases size - coord,
        {
            let mut new_coord = coord;
            let mut k: usize = 0;
            proof {
                assert(base_turns@.take(0) =~= Seq::<Turn>::empty());
            }
            while k < base_turns.len()
                invariant
                    move_tables.wf(),
                    move_tables.size_spec() == size,
                    forall|c: nat, t: Turn| #[trigger] move_tables.image(c, t) == turn_word_image(coord_type@, c, t),
                    forall|j: int| 0 <= j < base_turns@.len() ==> move_tables.turns_spec().contains(#[trigger] base_turns@[j]),
                    forall|j: int| 0 <= j < base_turns@.len() ==> is_single_field(#[trigger] base_turns@[j]),
                    k <= base_turns@.len(),
                    coord < size,
                    new_coord < size,
                    new_coord == turns_image(coord_type@, coord as nat, base_turns@.take(k as int)),
                decreases base_turns@.len() - k,
            {
                let base_turn = base_turns[k];
                let ghost before = new_coord;
                new_coord = move_tables.apply_move_to_coord(new_coord, &base_turn);
                proof {
                    lemma_base_turns_of_single(base_turn);
                    lemma_turns_image_single(coord_type@, before as nat, base_turn);
                    assert(base_turns@.take(k + 1) =~= base_turns@.take(k as int).push(base_turn));
                    lemma_turns_image_push(coord_type@, coord as nat, base_turns@.take(k as int), base_turn);
                }
                k = k + 1;
            }
            proof {
                assert(base_turns@.take(k as int) =~= base_turns@);
            }
            table.push(new_coord);
            coord = coord + 1;
        }
        Self { table }
    }
}

/// The tables of every turn of a move set, base turns first.
pub struct MoveTables {
    table: Vec<Vec<usize>>,
    turns: Vec<Turn>,
    size: usize,
    images: Ghost<spec_fn(nat, Turn) -> nat>,
}

impl MoveTables {
    pub closed spec fn wf(&self) -> bool {
        &&& self.table@.len() == self.turns@.len()
        &&& forall|i: int| 0 <= i < self.table@.len() ==> (#[trigger] self.table@[i])@.len() == self.size
        &&& forall|i: int, c: int|
            0 <= i < self.table@.len() && 0 <= c < self.size ==> {
                &&& #[trigger] self.table@[i]@[c] < self.size
                &&& self.table@[i]@[c] == (self.images@)(c as nat, self.turns@[i])
            }
    }

    /// The number of coordinates.
    pub closed spec fn size_spec(&self) -> nat {
        self.size as nat
    }

    /// The turns that have a table, in the order they were built.
    pub closed spec fn turns_spec(&self) -> Seq<Turn> {
        self.turns@
    }

    /// The image of coordinate c under turn t.
    pub closed spec fn image(&self, c: nat, t: Turn) -> nat {
        (self.images@)(c, t)
    }

    fn empty(size: usize, images: Ghost<spec_fn(nat, Turn) -> nat>) -> (r: Self)
        ensures
            r.wf(),
            r.size_spec() == size,
            r.turns_spec() == Seq::<Turn>::empty(),
            forall|c: nat, t: Turn| #[trigger] r.image(c, t) == (images@)(c, t),
    {
        Self { table: Vec::new(), turns: Vec::new(), size, images }
    }

    pub fn get_turns(&self) -> (turns: &[Turn])
        ensures
            turns@ == self.turns_spec(),
    {
        self.turns.as_slice()
    }

    fn add_table(&mut self, turn: Turn, table: MoveTable)
        requires
            old(self).wf(),
            table.table@.len() == old(self).size_spec(),
            forall|c: int| 0 <= c < old(self).size_spec() ==> {
                &&& #[trigger] table.table@[c] < old(self).size_spec()
                &&& table.table@[c] == old(self).image(c as nat, turn)
            },
        ensures
            final(self).wf(),
            final(self).size_spec() == old(self).size_spec(),
            final(self).turns_spec() == old(self).turns_spec().push(turn),
            forall|c: nat, t: Turn| #[trigger] final(self).image(c, t) == old(self).image(c, t),
    {
        self.table.push(table.table);
        self.turns.push(turn);
    }

    fn generate_base_tables<C: BasicCoordinate>(&mut self, coord_type: &C, move_set: &[Turn])
        requires
            old(self).wf(),
            old(self).size_spec() == coord_type.size_spec(),
            old(self).turns_spec() == Seq::<Turn>::empty(),
            layer_turns_only(move_set@),
            forall|c: nat, t: Turn| #[trigger] old(self).image(c, t) == turn_word_image(*coord_type, c, t),
        ensures
            final(self).wf(),
            final(self).size_spec() == coord_type.size_spec(),
            forall|c: nat, t: Turn| #[trigger] final(self).image(c, t) == turn_word_image(*coord_type, c, t),
            forall|i: int, k: int|
                0 <= i < move_set@.len() && 0 <= k < base_turns_of(move_set@[i]).len()
                    ==> final(self).turns_spec().contains(#[trigger] base_turns_of(move_set@[i])[k]),
            forall|i: int| 0 <= i < final(self).turns_spec().len() ==> is_single_field(#[trigger] final(self).turns_spec()[i]),
            forall|i: int| 0 <= i < final(self).turns_spec().len() ==> from_move_set(move_set@, #[trigger] final(self).turns_spec()[i]),
    {
        let mut i: usize = 0;
        while i < move_set.len()
            invariant
                self.wf(),
                self.size_spec() == coord_type.size_spec(),
                layer_turns_only(move_set@),
                i <= move_set@.len(),
                forall|c: nat, t: Turn| #[trigger] self.image(c, t) == turn_word_image(*coord_type, c, t),
                forall|a: int, k: int|
                    0 <= a < i && 0 <= k < base_turns_of(move_set@[a]).len()
                        ==> self.turns_spec().contains(#[trigger] base_turns_of(move_set@[a])[k]),
                forall|a: int| 0 <= a < self.turns_spec().len() ==> is_single_field(#[trigger] self.turns_spec()[a]),
                forall|a: int| 0 <= a < self.turns_spec().len() ==> from_move_set(move_set@, #[trigger] self.turns_spec()[a]),
            decreases move_set@.len() - i,
        {
            let parts = move_set[i].to_base_turns();
            let mut k: usize = 0;
            while k < parts.len()
                invariant
                    self.wf(),
                    self.size_spec() == coord_type.size_spec(),
                    layer_turns_only(move_set@),
                    i < move_set@.len(),
                    parts@ == base_turns_of(move_set@[i as int]),
                    k <= parts@.len(),
                    forall|c: nat, t: Turn| #[trigger] self.image(c, t) == turn_word_image(*coord_type, c, t),
                    forall|a: int, j: int|
                        0 <= a < i && 0 <= j < base_turns_of(move_set@[a]).len()
                            ==> self.turns_spec().contains(#[trigger] base_turns_of(move_set@[a])[j]),
                    forall|j: int| 0 <= j < k ==> self.turns_spec().contains(#[trigger] parts@[j]),
                    forall|a: int| 0 <= a < self.turns_spec().len() ==> is_single_field(#[trigger] self.turns_spec()[a]),
                    forall|a: int| 0 <= a < self.turns_spec().len() ==> from_move_set(move_set@, #[trigger] self.turns_spec()[a]),
                decreases parts@.len() - k,
            {
                let turn = parts[k];
                proof {
                    assert(is_layer_turn(base_turns_of(move_set@[i as int])[k as int]));
                }
                let known = self.has_turn(&turn);
                if turn.is_base_move() && !known {
                    let table = MoveTable::generate_from_base_turn(coord_type, &turn);
                    let ghost before = self.turns_spec();
                    self.add_table(turn, table);
                    proof {
                        assert forall|x: Turn| before.contains(x) implies self.turns_spec().contains(x) by {
                            let j = choose|j: int| 0 <= j < before.len() && before[j] == x;
                            assert(self.turns_spec()[j] == x);
                        }
                        assert(self.turns_spec()[before.len() as int] == turn);
                        assert(base_turns_of(move_set@[i as int])[k as int] == turn);
                        assert(from_move_set(move_set@, turn));
                    }
                } else {
                    proof {
                        if !known {
                            assert(is_single_field(turn)) by {
                                assert(is_layer_turn(turn));
                                crate::turndef::lemma_layer_turns_single(turn);
                            }
                        }
                    }
                }
                k = k + 1;
            }
            i = i + 1;
        }
    }

    fn has_turn(&self, turn: &Turn) -> (r: bool)
        ensures
            r == self.turns_spec().contains(*turn),
    {
        let mut i: usize = 0;
        while i < self.turns.len()
            invariant
                i <= self.turns@.len(),
                forall|j: int| 0 <= j < i ==> self.turns@[j] != *turn,
            decreases self.turns@.len() - i,
        {
            if self.turns[i] == *turn {
                return true;
            }
            i = i + 1;
        }
        false
    }

    /// A table for each turn of the move set, in the move set's order and once per turn, each
    /// composed from the base tables.
    fn generate_move_set_tables<C: Coordinate>(&mut self, base: &MoveTables, coord_type: Ghost<C>, size: usize, move_set: &[Turn])
        requires
            old(self).wf(),
            old(self).size_spec() == size,
            old(self).turns_spec() == Seq::<Turn>::empty(),
            base.wf(),
            base.size_spec() == size,
            size == coord_type@.size_spec(),
            forall|c: nat, t: Turn| #[trigger] old(self).image(c, t) == turn_word_image(coord_type@, c, t),
            forall|c: nat, t: Turn| #[trigger] base.image(c, t) == turn_word_image(coord_type@, c, t),
            forall|i: int, k: int|
                0 <= i < move_set@.len() && 0 <= k < base_turns_of(move_set@[i]).len()
                    ==> base.turns_spec().contains(#[trigger] base_turns_of(move_set@[i])[k]),
            forall|i: int| 0 <= i < base.turns_spec().len() ==> is_single_field(#[trigger] base.turns_spec()[i]),
        ensures
            final(self).wf(),
            final(self).size_spec() == size,
            forall|c: nat, t: Turn| #[trigger] final(self).image(c, t) == turn_word_image(coord_type@, c, t),
            final(self).turns_spec() == first_occurrences(move_set@),
    {
        let mut i: usize = 0;
        proof {
            assert(move_set@.take(0) =~= Seq::<Turn>::empty());
        }
        while i < move_set.len()
            invariant
                self.wf(),
                self.size_spec() == size,
                base.wf(),
                base.size_spec() == size,
                size == coord_type@.size_spec(),
                i <= move_set@.len(),
                forall|c: nat, t: Turn| #[trigger] self.image(c, t) == turn_word_image(coord_type@, c, t),
                forall|c: nat, t: Turn| #[trigger] base.image(c, t) == turn_word_image(coord_type@, c, t),
                forall|a: int, k: int|
                    0 <= a < move_set@.len() && 0 <= k < base_turns_of(move_set@[a]).len()
                        ==> base.turns_spec().contains(#[trigger] base_turns_of(move_set@[a])[k]),
                forall|a: int| 0 <= a < base.turns_spec().len() ==> is_single_field(#[trigger] base.turns_spec()[a]),
                self.turns_spec() == first_occurrences(move_set@.take(i as int)),
            decreases move_set@.len() - i,
        {
            let turn = move_set[i];
            proof {
                assert(move_set@.take(i + 1).drop_last() =~= move_set@.take(i as int));
                assert(move_set@.take(i + 1).last() == turn);
                assert forall|k: int| 0 <= k < base_turns_of(turn).len() implies is_single_field(#[trigger] base_turns_of(turn)[k]) by {
                    let x = base_turns_of(turn)[k];
                    assert(base.turns_spec().contains(x));
                    let j = choose|j: int| 0 <= j < base.turns_spec().len() && base.turns_spec()[j] == x;
                }
            }
            if !self.has_turn(&turn) {
                let table = MoveTable::generate_from_compound_turn(coord_type, &turn, size, base);
                self.add_table(turn, table);
            }
            i = i + 1;
        }
        proof {
            assert(move_set@.take(i as int) =~= move_set@);
        }
    }

    /// The tables of every turn of the move set for a coordinate type, once per turn and in the
    /// move set's order. A table for each base turn found in the move set is built first,
    /// through the raw state; each turn's table is then composed from those base tables.
    pub fn new_basic_table<C: BasicCoordinate>(coord_type: C, move_set: &[Turn]) -> (tables: Self)
        requires
            layer_turns_only(move_set@),
        ensures
            tables.wf(),
            tables.size_spec() == coord_type.size_spec(),
            forall|c: nat, t: Turn| #[trigger] tables.image(c, t) == turn_word_image(coord_type, c, t),
            tables.turns_spec() == first_occurrences(move_set@),
            tables.turns_spec().no_duplicates(),
            move_set@.no_duplicates() ==> tables.turns_spec() == move_set@,
            forall|i: int| 0 <= i < move_set@.len() ==> tables.turns_spec().contains(#[trigger] move_set@[i]),
            forall|i: int| 0 <= i < tables.turns_spec().len() ==> from_move_set(move_set@, #[trigger] tables.turns_spec()[i]),
    {
        let size = coord_type.get_size();
        let ghost images = |c: nat, t: Turn| turn_word_image(coord_type, c, t);
        let mut base = Self::empty(size, Ghost(images));
        base.generate_base_tables(&coord_type, move_set);
        let mut tables = Self::empty(size, Ghost(images));
        tables.generate_move_set_tables::<C>(&base, Ghost(coord_type), size, move_set);
        proof {
            lemma_first_occurrences(move_set@);
            assert forall|i: int| 0 <= i < tables.turns_spec().len() implies from_move_set(move_set@, #[trigger] tables.turns_spec()[i]) by {
                assert(tables.turns_spec().contains(tables.turns_spec()[i]));
                assert(move_set@.contains(tables.turns_spec()[i]));
            }
            assert forall|i: int| 0 <= i < move_set@.len() implies tables.turns_spec().contains(#[trigger] move_set@[i]) by {
                assert(move_set@.contains(move_set@[i]));
            }
        }
        tables
    }

    /// The image of a coordinate under a turn that has a table.
    pub fn apply_move_to_coord(&self, coord: usize, turn: &Turn) -> (new_coord: usize)
        requires
            self.wf(),
            coord < self.size_spec(),
            self.turns_spec().contains(*turn),
        ensures
            new_coord == self.image(coord as nat, *turn),
            new_coord < self.size_spec(),
    {
        let mut i: usize = 0;
        while i < self.turns.len()
            invariant
                self.wf(),
                coord < self.size,
                i <= self.turns@.len(),
                self.turns@.contains(*turn),
                forall|j: int| 0 <= j < i ==> self.turns@[j] != *turn,
            decreases self.turns@.len() - i,
        {
            if self.turns[i] == *turn {
                return self.table[i][coord];
            }
            i = i + 1;
        }
        proof {
            let j = choose|j: int| 0 <= j < self.turns@.len() && self.turns@[j] == *turn;
            assert(false);
        }
        0
    }
}

/// A move table's entry for a single-layer quarter turn is the coordinate found through the
/// raw state: the example state of the coordinate with the turn's effect applied, read back.
pub proof fn lemma_table_follows_raw_state<C: BasicCoordinate>(coord_type: C, tables: &MoveTables, c: nat, t: Turn)
    requires
        forall|x: nat, u: Turn| #[trigger] tables.image(x, u) == turn_word_image(coord_type, x, u),
        is_layer_turn(t),
    ensures
        tables.image(c, t) == coord_type.project(effect_applied(coord_type.example(c), layer_effect(t))),
{
    lemma_layer_turns_single(t);
    lemma_base_turns_of_single(t);
    lemma_turns_image_single(coord_type, c, t);
    coord_type.lemma_turn_image_is_raw(c, t);
}

/// Turn j of the move tables undoes turn i on every coordinate.
pub open spec fn undoes(move_tables: &MoveTables, i: int, j: int) -> bool {
    forall|c: nat|
        c < move_tables.size_spec() ==> #[trigger] move_tables.image(move_tables.image(c, move_tables.turns_spec()[i]), move_tables.turns_spec()[j]) == c
}

/// Some turn of the move tables undoes turn i.
pub open spec fn has_inverse(move_tables: &MoveTables, i: int) -> bool {
    exists|j: int| 0 <= j < move_tables.turns_spec().len() && #[trigger] undoes(move_tables, i, j)
}

/// Every turn of the move tables is undone by one of them.
pub open spec fn inverse_closed(move_tables: &MoveTables) -> bool {
    forall|i: int| 0 <= i < move_tables.turns_spec().len() ==> #[trigger] has_inverse(move_tables, i)
}

impl MoveTables {
    /// The image of a coordinate under a turn of the tables is a coordinate.
    pub proof fn lemma_image_in_range(&self, c: nat, i: int)
        requires
            self.wf(),
            c < self.size_spec(),
            0 <= i < self.turns_spec().len(),
        ensures
            self.image(c, self.turns_spec()[i]) < self.size_spec(),
    {
        assert(self.table@[i]@[c as int] < self.size);
    }

    /// Whether every turn of the tables is undone by one of them.
    pub fn has_inverses(&self) -> (r: bool)
        requires
            self.wf(),
        ensures
            r == inverse_closed(self),
    {
        let n = self.turns.len();
        let mut i: usize = 0;
        while i < n
            invariant
                self.wf(),
                n == self.turns_spec().len(),
                i <= n,
                forall|a: int| 0 <= a < i ==> #[trigger] has_inverse(self, a),
            decreases n - i,
        {
            let mut found = false;
            let mut j: usize = 0;
            while j < n && !found
                invariant
                    self.wf(),
                    n == self.turns_spec().len(),
                    i < n,
                    j <= n,
                    found ==> has_inverse(self, i as int),
                    !found ==> forall|b: int| 0 <= b < j ==> !(#[trigger] undoes(self, i as int, b)),
                decreases n - j + (if found { 0int } else { 1int }),
            {
                let mut all = true;
                let mut c: usize = 0;
                while c < self.size && all
                    invariant
                        self.wf(),
                        n == self.turns_spec().len(),
                        i < n,
                        j < n,
                        c <= self.size,
                        all ==> forall|x: nat| x < c ==> #[trigger] self.image(self.image(x, self.turns_spec()[i as int]), self.turns_spec()[j as int]) == x,
                        !all ==> !undoes(self, i as int, j as int),
                    decreases self.size - c + (if all { 1int } else { 0int }),
                {
                    let once = self.table[i][c];
                    let twice = self.table[j][once];
                    if twice != c {
                        all = false;
                        proof {
                            assert(self.image(self.image(c as nat, self.turns_spec()[i as int]), self.turns_spec()[j as int]) != c);
                        }
                    } else {
                        c = c + 1;
                    }
                }
                if all {
                    found = true;
                    proof {
                        assert(undoes(self, i as int, j as int));
                    }
                } else {
                    j = j + 1;
                }
            }
            if !found {
                proof {
                    assert forall|b: int| 0 <= b < n implies !(#[trigger] undoes(self, i as int, b)) by {}
                    assert(!has_inverse(self, i as int));
                }
                return false;
            }
            i = i + 1;
        }
        true
    }
}

/// When every turn of the tables is undone by one of them, each turn maps distinct
/// coordinates to distinct coordinates of the same range.
pub proof fn lemma_tables_injective(move_tables: &MoveTables, i: int, c1: nat, c2: nat)
    requires
        move_tables.wf(),
        inverse_closed(move_tables),
        0 <= i < move_tables.turns_spec().len(),
        c1 < move_tables.size_spec(),
        c2 < move_tables.size_spec(),
        move_tables.image(c1, move_tables.turns_spec()[i]) == move_tables.image(c2, move_tables.turns_spec()[i]),
    ensures
        c1 == c2,
        move_tables.image(c1, move_tables.turns_spec()[i]) < move_tables.size_spec(),
{
    assert(has_inverse(move_tables, i));
    let j = choose|j: int| 0 <= j < move_tables.turns_spec().len() && #[trigger] undoes(move_tables, i, j);
    assert(move_tables.image(move_tables.image(c1, move_tables.turns_spec()[i]), move_tables.turns_spec()[j]) == c1);
    assert(move_tables.image(move_tables.image(c2, move_tables.turns_spec()[i]), move_tables.turns_spec()[j]) == c2);
    move_tables.lemma_image_in_range(c1, i);
}

} // verus!
