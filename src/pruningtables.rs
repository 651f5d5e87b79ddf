//! Pruning tables: for each coordinate, the number of turns of the move set needed to reach
//! it from a solved coordinate, filled breadth first.
use vstd::prelude::*;
use crate::coordinate::Coordinate;
use crate::movetables::{MoveTables, inverse_closed, has_inverse, undoes};
use crate::turndef::Turn;
use crate::solver::walk;

verus! {

/// Entries not yet filled hold this value.
pub const UNFILLED: u8 = 255;

/// Fill passes beyond this distance mean the move set does not reach every coordinate.
pub const MAX_SEARCH_DISTANCE: u8 = 25;

/// The number of filled entries.
pub open spec fn count_filled(s: Seq<u8>) -> nat
    decreases s.len(),
{
    if s.len() == 0 {
        0
    } else {
        count_filled(s.drop_last()) + (if s.last() != UNFILLED { 1nat } else { 0nat })
    }
}

proof fn lemma_count_filled_update(s: Seq<u8>, i: int, v: u8)
    requires
        0 <= i < s.len(),
        v != UNFILLED,
    ensures
        count_filled(s.update(i, v)) == count_filled(s) + (if s[i] == UNFILLED { 1nat } else { 0nat }),
    decreases s.len(),
{
    let t = s.update(i, v);
    if i == s.len() - 1 {
        assert(t.drop_last() =~= s.drop_last());
    } else {
        lemma_count_filled_update(s.drop_last(), i, v);
        assert(t.drop_last() =~= s.drop_last().update(i, v));
    }
}

proof fn lemma_count_filled_bound(s: Seq<u8>)
    ensures
        count_filled(s) <= s.len(),
        count_filled(s) == s.len() ==> forall|i: int| 0 <= i < s.len() ==> #[trigger] s[i] != UNFILLED,
    decreases s.len(),
{
    if s.len() > 0 {
        lemma_count_filled_bound(s.drop_last());
        if count_filled(s) == s.len() {
            assert forall|i: int| 0 <= i < s.len() implies #[trigger] s[i] != UNFILLED by {
                if i < s.len() - 1 {
                    assert(s.drop_last()[i] == s[i]);
                }
            }
        }
    }
}

proof fn lemma_count_filled_empty(n: nat)
    ensures
        count_filled(Seq::new(n, |i: int| UNFILLED)) == 0,
    decreases n,
{
    if n > 0 {
        lemma_count_filled_empty((n - 1) as nat);
        assert(Seq::new(n, |i: int| UNFILLED).drop_last() =~= Seq::new((n - 1) as nat, |i: int| UNFILLED));
    }
}

/// Every filled entry is at most d.
pub open spec fn bounded(t: Seq<u8>, d: int) -> bool {
    forall|c: int| 0 <= c < t.len() && #[trigger] t[c] != UNFILLED ==> t[c] <= d
}

/// Some turn leads from c to an entry one less than c's.
pub open spec fn witnessed(t: Seq<u8>, move_tables: &MoveTables, c: int) -> bool {
    exists|i: int|
        0 <= i < move_tables.turns_spec().len() && t[move_tables.image(c as nat, move_tables.turns_spec()[i]) as int] == t[c] - 1
}

/// Every filled positive entry has a turn to an entry one less.
pub open spec fn has_witnesses(t: Seq<u8>, move_tables: &MoveTables) -> bool {
    forall|c: int| 0 <= c < t.len() && t[c] != UNFILLED && t[c] > 0 ==> #[trigger] witnessed(t, move_tables, c)
}

/// Every turn leads from c to a filled entry at most one more than c's.
pub open spec fn neighbors_close(t: Seq<u8>, move_tables: &MoveTables, c: int) -> bool {
    forall|i: int|
        0 <= i < move_tables.turns_spec().len() ==> {
            &&& t[#[trigger] move_tables.image(c as nat, move_tables.turns_spec()[i]) as int] != UNFILLED
            &&& t[move_tables.image(c as nat, move_tables.turns_spec()[i]) as int] <= t[c] + 1
        }
}

/// Every filled entry below d has its turns lead to entries at most one more.
pub open spec fn closed_below(t: Seq<u8>, move_tables: &MoveTables, d: int) -> bool {
    forall|c: int| 0 <= c < t.len() && t[c] != UNFILLED && t[c] < d ==> #[trigger] neighbors_close(t, move_tables, c)
}

/// Writing d + 1 over an entry that is unfilled or above d keeps the turns of an entry at most
/// d close.
proof fn lemma_write_keeps_close(t: Seq<u8>, move_tables: &MoveTables, p: int, d: int, c: int)
    requires
        move_tables.wf(),
        move_tables.size_spec() == t.len(),
        0 <= p < t.len(),
        0 <= c < t.len(),
        0 <= d < 26,
        t[p] == UNFILLED || t[p] > d,
        bounded(t, d + 1),
        t[c] != UNFILLED,
        t[c] <= d,
        neighbors_close(t, move_tables, c),
    ensures
        neighbors_close(t.update(p, (d + 1) as u8), move_tables, c),
{
    let t1 = t.update(p, (d + 1) as u8);
    assert forall|i: int| 0 <= i < move_tables.turns_spec().len() implies {
        &&& t1[#[trigger] move_tables.image(c as nat, move_tables.turns_spec()[i]) as int] != UNFILLED
        &&& t1[move_tables.image(c as nat, move_tables.turns_spec()[i]) as int] <= t1[c] + 1
    } by {
        move_tables.lemma_image_in_range(c as nat, i);
    }
}

/// Every coordinate below `size` reaches a coordinate of `solved` by at most d turns of the
/// move tables.
pub open spec fn reaches_within(move_tables: &MoveTables, solved: Seq<usize>, size: nat, d: nat) -> bool {
    forall|c: nat| c < size ==> #[trigger] reachable_within(move_tables, solved, c, d)
}

/// Some path of at most d turns of the move tables takes c to a coordinate of `solved`.
pub open spec fn reachable_within(move_tables: &MoveTables, solved: Seq<usize>, c: nat, d: nat) -> bool {
    exists|ts: Seq<Turn>| #[trigger] reach_path(move_tables, solved, c, ts, d)
}

/// ts takes c to a coordinate of `solved` in at most d turns of the move tables.
pub open spec fn reach_path(move_tables: &MoveTables, solved: Seq<usize>, c: nat, ts: Seq<Turn>, d: nat) -> bool {
    &&& ts.len() <= d
    &&& forall|i: int| 0 <= i < ts.len() ==> move_tables.turns_spec().contains(#[trigger] ts[i])
    &&& solved.contains(walk(move_tables, c, ts) as usize)
}

proof fn lemma_count_filled_full(s: Seq<u8>)
    requires
        forall|i: int| 0 <= i < s.len() ==> #[trigger] s[i] != UNFILLED,
    ensures
        count_filled(s) == s.len(),
    decreases s.len(),
{
    if s.len() > 0 {
        assert forall|i: int| 0 <= i < s.drop_last().len() implies #[trigger] s.drop_last()[i] != UNFILLED by {
            assert(s.drop_last()[i] == s[i]);
        }
        lemma_count_filled_full(s.drop_last());
        assert(s[s.len() - 1] == s.last());
    }
}

/// Walking back from a filled entry along a path of turns: where the table is closed below d
/// and each turn has an inverse, every coordinate on the path is filled, at most the path's
/// length above the entry it reaches.
proof fn lemma_filled_along(t: Seq<u8>, move_tables: &MoveTables, c: nat, ts: Seq<Turn>, d: int)
    requires
        move_tables.wf(),
        inverse_closed(move_tables),
        t.len() == move_tables.size_spec(),
        closed_below(t, move_tables, d),
        c < move_tables.size_spec(),
        forall|i: int| 0 <= i < ts.len() ==> move_tables.turns_spec().contains(#[trigger] ts[i]),
        t[walk(move_tables, c, ts) as int] != UNFILLED,
        t[walk(move_tables, c, ts) as int] + ts.len() <= d,
    ensures
        t[c as int] != UNFILLED,
        t[c as int] <= t[walk(move_tables, c, ts) as int] + ts.len(),
    decreases ts.len(),
{
    if ts.len() > 0 {
        let rest = ts.drop_last();
        assert forall|i: int| 0 <= i < rest.len() implies move_tables.turns_spec().contains(#[trigger] rest[i]) by {
            assert(rest[i] == ts[i]);
        }
        crate::solver::lemma_walk_in_range(move_tables, c, rest);
        let y = walk(move_tables, c, rest);
        assert(move_tables.turns_spec().contains(ts[ts.len() - 1]));
        let i = choose|i: int| 0 <= i < move_tables.turns_spec().len() && move_tables.turns_spec()[i] == ts.last();
        move_tables.lemma_image_in_range(y, i);
        let z = move_tables.image(y, ts.last());
        assert(z == walk(move_tables, c, ts));
        assert(has_inverse(move_tables, i));
        let j = choose|j: int| 0 <= j < move_tables.turns_spec().len() && #[trigger] undoes(move_tables, i, j);
        assert(move_tables.image(z, move_tables.turns_spec()[j]) == y);
        let zi = z as int;
        assert(zi as nat == z);
        assert(neighbors_close(t, move_tables, zi));
        assert(t[move_tables.image(zi as nat, move_tables.turns_spec()[j]) as int] <= t[zi] + 1);
        lemma_filled_along(t, move_tables, c, rest, d);
    }
}

proof fn lemma_walk_prepend(move_tables: &MoveTables, c: nat, x: Turn, ts: Seq<Turn>)
    ensures
        walk(move_tables, c, seq![x] + ts) == walk(move_tables, move_tables.image(c, x), ts),
    decreases ts.len(),
{
    if ts.len() == 0 {
        assert(seq![x] + ts =~= seq![x]);
        assert(seq![x].drop_last() =~= Seq::<Turn>::empty());
        assert(walk(move_tables, c, Seq::<Turn>::empty()) == c);
        assert(walk(move_tables, c, seq![x]) == move_tables.image(walk(move_tables, c, seq![x].drop_last()), seq![x].last()));
        assert(walk(move_tables, c, seq![x] + ts) == walk(move_tables, c, seq![x]));
    } else {
        lemma_walk_prepend(move_tables, c, x, ts.drop_last());
        assert((seq![x] + ts).drop_last() =~= seq![x] + ts.drop_last());
        assert((seq![x] + ts).last() == ts.last());
    }
}

/// Following turns one step closer, a coordinate reaches a solved coordinate in as many turns
/// as its distance.
proof fn lemma_descent_path(table: &PruningTable, move_tables: &MoveTables, c: nat)
    requires
        table.wf(),
        move_tables.wf(),
        move_tables.size_spec() == table.size_spec(),
        table.steps_down(move_tables),
        bounded(table.distances(), MAX_SEARCH_DISTANCE as int),
        c < table.size_spec(),
    ensures
        reachable_within(move_tables, table.solved_spec(), c, MAX_SEARCH_DISTANCE as nat),
        exists|ts: Seq<Turn>| #[trigger] reach_path(move_tables, table.solved_spec(), c, ts, table.distances()[c as int] as nat),
    decreases table.distances()[c as int],
{
    let d = table.distances()[c as int];
    let ci = c as int;
    assert(ci as nat == c);
    if d == 0 {
        let ts = Seq::<Turn>::empty();
        assert(walk(move_tables, c, ts) == c);
        assert(table.solved_spec().contains(c as usize));
        assert(reach_path(move_tables, table.solved_spec(), c, ts, d as nat));
        assert(reach_path(move_tables, table.solved_spec(), c, ts, MAX_SEARCH_DISTANCE as nat));
    } else {
        let i = choose|i: int| 0 <= i < move_tables.turns_spec().len()
            && table.distances()[move_tables.image(ci as nat, move_tables.turns_spec()[i]) as int] == table.distances()[ci] - 1;
        let x = move_tables.turns_spec()[i];
        move_tables.lemma_image_in_range(c, i);
        let n = move_tables.image(c, x);
        lemma_descent_path(table, move_tables, n);
        let rest = choose|ts: Seq<Turn>| #[trigger] reach_path(move_tables, table.solved_spec(), n, ts, table.distances()[n as int] as nat);
        let ts = seq![x] + rest;
        lemma_walk_prepend(move_tables, c, x, rest);
        assert forall|k: int| 0 <= k < ts.len() implies move_tables.turns_spec().contains(#[trigger] ts[k]) by {
            if k == 0 {
                assert(ts[0] == x);
            } else {
                assert(ts[k] == rest[k - 1]);
            }
        }
        assert(reach_path(move_tables, table.solved_spec(), c, ts, d as nat));
        assert(reach_path(move_tables, table.solved_spec(), c, ts, MAX_SEARCH_DISTANCE as nat));
    }
}

/// PruningTable stores the distance of each coordinate from the solved coordinates.
pub struct PruningTable {
    table: Vec<u8>,
    turn_set: Vec<Turn>,
    num_filled: usize,
    max_size: usize,
    solved_coords: Vec<usize>,
}

impl PruningTable {
    pub closed spec fn distances(&self) -> Seq<u8> {
        self.table@
    }

    pub closed spec fn size_spec(&self) -> nat {
        self.max_size as nat
    }

    pub closed spec fn solved_spec(&self) -> Seq<usize> {
        self.solved_coords@
    }

    pub closed spec fn turns_spec(&self) -> Seq<Turn> {
        self.turn_set@
    }

    /// The table while it is being filled.
    closed spec fn inv(&self) -> bool {
        &&& self.table@.len() == self.max_size
        &&& self.num_filled == count_filled(self.table@)
        &&& forall|i: int| 0 <= i < self.solved_coords@.len() ==> #[trigger] self.solved_coords@[i] < self.max_size
        &&& forall|c: int| 0 <= c < self.max_size ==> (#[trigger] self.table@[c] == 0 <==> self.solved_coords@.contains(c as usize))
    }

    /// A complete table: every entry filled, and 0 exactly at the solved coordinates.
    pub open spec fn wf(&self) -> bool {
        &&& self.distances().len() == self.size_spec()
        &&& forall|c: int| 0 <= c < self.size_spec() ==> #[trigger] self.distances()[c] != UNFILLED
        &&& forall|c: int| 0 <= c < self.size_spec() ==> (#[trigger] self.distances()[c] == 0 <==> self.solved_spec().contains(c as usize))
    }

    /// From every coordinate at a positive distance, some turn of the move tables leads to a
    /// coordinate at a smaller distance.
    pub open spec fn descends(&self, move_tables: &MoveTables) -> bool {
        forall|c: int|
            0 <= c < self.size_spec() && #[trigger] self.distances()[c] > 0 ==> exists|i: int|
                0 <= i < move_tables.turns_spec().len() && self.distances()[move_tables.image(c as nat, move_tables.turns_spec()[i]) as int] < self.distances()[c]
    }

    /// From every coordinate at a positive distance, some turn of the move tables leads to a
    /// coordinate exactly one closer.
    pub open spec fn steps_down(&self, move_tables: &MoveTables) -> bool {
        forall|c: int|
            0 <= c < self.size_spec() && #[trigger] self.distances()[c] > 0 ==> exists|i: int|
                0 <= i < move_tables.turns_spec().len() && self.distances()[move_tables.image(c as nat, move_tables.turns_spec()[i]) as int] == self.distances()[c] - 1
    }

    /// Every turn of the move tables changes the distance by at most one.
    pub open spec fn within_one(&self, move_tables: &MoveTables) -> bool {
        forall|c: int, i: int|
            0 <= c < self.size_spec() && 0 <= i < move_tables.turns_spec().len() ==> {
                &&& self.distances()[#[trigger] move_tables.image(c as nat, move_tables.turns_spec()[i]) as int] <= self.distances()[c] + 1
                &&& self.distances()[c] <= self.distances()[move_tables.image(c as nat, move_tables.turns_spec()[i]) as int] + 1
            }
    }

    fn empty(turn_sets: &[Turn], size: usize, solved_coords: Vec<usize>) -> (r: Self)
        ensures
            r.turns_spec() == turn_sets@,
            r.size_spec() == size,
            r.solved_spec() == solved_coords@,
    {
        Self {
            table: Vec::new(),
            turn_set: vstd::slice::slice_to_vec(turn_sets),
            num_filled: 0,
            max_size: size,
            solved_coords,
        }
    }

    fn init_table(&mut self)
        requires
            forall|i: int| 0 <= i < old(self).solved_coords@.len() ==> #[trigger] old(self).solved_coords@[i] < old(self).max_size,
        ensures
            final(self).inv(),
            final(self).turns_spec() == old(self).turns_spec(),
            final(self).size_spec() == old(self).size_spec(),
            final(self).solved_spec() == old(self).solved_spec(),
            forall|c: int| 0 <= c < final(self).table@.len() ==> (#[trigger] final(self).table@[c] == 0 || final(self).table@[c] == UNFILLED),
    {
        let mut table: Vec<u8> = Vec::new();
        let mut k: usize = 0;
        while k < self.max_size
            invariant
                k <= self.max_size,
                table@ == Seq::new(k as nat, |i: int| UNFILLED),
            decreases self.max_size - k,
        {
            table.push(UNFILLED);
            k = k + 1;
            proof {
                assert(table@ =~= Seq::new(k as nat, |i: int| UNFILLED));
            }
        }
        proof {
            lemma_count_filled_empty(self.max_size as nat);
        }
        self.table = table;
        self.num_filled = 0;
        let mut j: usize = 0;
        while j < self.solved_coords.len()
            invariant
                j <= self.solved_coords@.len(),
                self.table@.len() == self.max_size,
                self.num_filled == count_filled(self.table@),
                self.turn_set@ == old(self).turn_set@,
                self.max_size == old(self).max_size,
                self.solved_coords@ == old(self).solved_coords@,
                forall|i: int| 0 <= i < self.solved_coords@.len() ==> #[trigger] self.solved_coords@[i] < self.max_size,
                forall|c: int| 0 <= c < self.max_size ==> (#[trigger] self.table@[c] == 0 <==> self.solved_coords@.take(j as int).contains(c as usize)),
                forall|c: int| 0 <= c < self.max_size ==> (#[trigger] self.table@[c] == 0 || self.table@[c] == UNFILLED),
            decreases self.solved_coords@.len() - j,
        {
            let solved_coord = self.solved_coords[j];
            proof {
                lemma_count_filled_update(self.table@, solved_coord as int, 0);
                lemma_count_filled_bound(self.table@.update(solved_coord as int, 0));
                assert(self.solved_coords@.take(j + 1) =~= self.solved_coords@.take(j as int).push(solved_coord));
            }
            if self.table[solved_coord] == UNFILLED {
                self.table.set(solved_coord, 0);
                self.num_filled = self.num_filled + 1;
            }
            proof {
                let prev = self.solved_coords@.take(j as int);
                let next = self.solved_coords@.take(j + 1);
                assert forall|x: usize| next.contains(x) <==> (prev.contains(x) || x == solved_coord) by {
                    if next.contains(x) {
                        let i = choose|i: int| 0 <= i < next.len() && next[i] == x;
                        if i < prev.len() {
                            assert(prev[i] == x);
                        }
                    }
                    if prev.contains(x) {
                        let i = choose|i: int| 0 <= i < prev.len() && prev[i] == x;
                        assert(next[i] == x);
                    }
                    if x == solved_coord {
                        assert(next[prev.len() as int] == x);
                    }
                }
            }
            j = j + 1;
        }
        proof {
            assert(self.solved_coords@.take(j as int) =~= self.solved_coords@);
        }
    }

    fn forward_fill_single_pass(&mut self, distance: u8, movetables: &MoveTables)
        requires
            old(self).inv(),
            distance < 26,
            movetables.wf(),
            movetables.size_spec() == old(self).size_spec(),
            old(self).turns_spec() == movetables.turns_spec(),
            bounded(old(self).table@, distance as int),
            inverse_closed(movetables) ==> has_witnesses(old(self).table@, movetables),
            inverse_closed(movetables) ==> closed_below(old(self).table@, movetables, distance as int),
        ensures
            final(self).inv(),
            bounded(final(self).table@, distance + 1),
            inverse_closed(movetables) ==> has_witnesses(final(self).table@, movetables),
            inverse_closed(movetables) ==> closed_below(final(self).table@, movetables, distance + 1),
            final(self).turns_spec() == old(self).turns_spec(),
            final(self).size_spec() == old(self).size_spec(),
            final(self).solved_spec() == old(self).solved_spec(),
    {
        let mut coord: usize = 0;
        while coord < self.max_size
            invariant
                self.inv(),
                distance < 26,
                movetables.wf(),
                movetables.size_spec() == self.max_size,
                self.turn_set@ == movetables.turns_spec(),
                self.turn_set@ == old(self).turn_set@,
                self.max_size == old(self).max_size,
                self.solved_coords@ == old(self).solved_coords@,
                coord <= self.max_size,
                bounded(self.table@, distance + 1),
                inverse_closed(movetables) ==> has_witnesses(self.table@, movetables),
                inverse_closed(movetables) ==> closed_below(self.table@, movetables, distance as int),
                inverse_closed(movetables) ==> forall|c: int| 0 <= c < coord && self.table@[c] == distance ==> #[trigger] neighbors_close(self.table@, movetables, c),
            decreases self.max_size - coord,
        {
            if self.table[coord] == distance {
                let mut k: usize = 0;
                while k < self.turn_set.len()
                    invariant
                        self.inv(),
                        distance < 26,
                        movetables.wf(),
                        movetables.size_spec() == self.max_size,
                        self.turn_set@ == movetables.turns_spec(),
                        self.turn_set@ == old(self).turn_set@,
                        self.max_size == old(self).max_size,
                        self.solved_coords@ == old(self).solved_coords@,
                        coord < self.max_size,
                        self.table@[coord as int] == distance,
                        k <= self.turn_set@.len(),
                        bounded(self.table@, distance + 1),
                        inverse_closed(movetables) ==> has_witnesses(self.table@, movetables),
                        inverse_closed(movetables) ==> closed_below(self.table@, movetables, distance as int),
                        inverse_closed(movetables) ==> forall|c: int| 0 <= c < coord && self.table@[c] == distance ==> #[trigger] neighbors_close(self.table@, movetables, c),
                        forall|i: int| 0 <= i < k ==> {
                            &&& self.table@[#[trigger] movetables.image(coord as nat, movetables.turns_spec()[i]) as int] != UNFILLED
                            &&& self.table@[movetables.image(coord as nat, movetables.turns_spec()[i]) as int] <= distance + 1
                        },
                    decreases self.turn_set@.len() - k,
                {
                    let turn = self.turn_set[k];
                    proof {
                        assert(movetables.turns_spec()[k as int] == turn);
                    }
                    let new_coord = movetables.apply_move_to_coord(coord, &turn);
                    if self.table[new_coord] == UNFILLED {
                        let ghost t0 = self.table@;
                        proof {
                            lemma_count_filled_update(self.table@, new_coord as int, (distance + 1) as u8);
                            lemma_count_filled_bound(self.table@.update(new_coord as int, (distance + 1) as u8));
                        }
                        self.table.set(new_coord, distance + 1);
                        self.num_filled = self.num_filled + 1;
                        proof {
                            let t1 = self.table@;
                            if inverse_closed(movetables) {
                                assert(t0[coord as int] == distance);
                                assert forall|c: int| 0 <= c < t1.len() && t1[c] != UNFILLED && t1[c] > 0 implies #[trigger] witnessed(t1, movetables, c) by {
                                    if c == new_coord as int {
                                        assert(has_inverse(movetables, k as int));
                                        let j = choose|j: int| 0 <= j < movetables.turns_spec().len() && #[trigger] undoes(movetables, k as int, j);
                                        assert(movetables.image(movetables.image(coord as nat, movetables.turns_spec()[k as int]), movetables.turns_spec()[j]) == coord);
                                    } else {
                                        assert(witnessed(t0, movetables, c));
                                        let i = choose|i: int| 0 <= i < movetables.turns_spec().len()
                                            && t0[movetables.image(c as nat, movetables.turns_spec()[i]) as int] == t0[c] - 1;
                                        let w = movetables.image(c as nat, movetables.turns_spec()[i]) as int;
                                        movetables.lemma_image_in_range(c as nat, i);
                                        assert(w != new_coord as int);
                                        assert(t1[w] == t0[w]);
                                    }
                                }
                            }
                            if inverse_closed(movetables) {
                                assert forall|c: int| 0 <= c < t1.len() && t1[c] != UNFILLED && t1[c] < distance implies #[trigger] neighbors_close(t1, movetables, c) by {
                                    assert(neighbors_close(t0, movetables, c));
                                    lemma_write_keeps_close(t0, movetables, new_coord as int, distance as int, c);
                                }
                                assert forall|c: int| 0 <= c < coord && t1[c] == distance implies #[trigger] neighbors_close(t1, movetables, c) by {
                                    assert(neighbors_close(t0, movetables, c));
                                    lemma_write_keeps_close(t0, movetables, new_coord as int, distance as int, c);
                                }
                            }
                            assert forall|i: int| 0 <= i < k implies {
                                &&& t1[#[trigger] movetables.image(coord as nat, movetables.turns_spec()[i]) as int] != UNFILLED
                                &&& t1[movetables.image(coord as nat, movetables.turns_spec()[i]) as int] <= distance + 1
                            } by {
                                movetables.lemma_image_in_range(coord as nat, i);
                            }
                        }
                    }
                    proof {
                        movetables.lemma_image_in_range(coord as nat, k as int);
                    }
                    k = k + 1;
                }
                proof {
                    assert(neighbors_close(self.table@, movetables, coord as int));
                }
            }
            coord = coord + 1;
        }
    }

    fn backward_fill_single_pass(&mut self, distance: u8, movetables: &MoveTables)
        requires
            old(self).inv(),
            distance < 26,
            movetables.wf(),
            movetables.size_spec() == old(self).size_spec(),
            old(self).turns_spec() == movetables.turns_spec(),
            bounded(old(self).table@, distance as int),
            inverse_closed(movetables) ==> has_witnesses(old(self).table@, movetables),
            inverse_closed(movetables) ==> closed_below(old(self).table@, movetables, distance as int),
        ensures
            final(self).inv(),
            bounded(final(self).table@, distance + 1),
            inverse_closed(movetables) ==> has_witnesses(final(self).table@, movetables),
            inverse_closed(movetables) ==> closed_below(final(self).table@, movetables, distance + 1),
            final(self).turns_spec() == old(self).turns_spec(),
            final(self).size_spec() == old(self).size_spec(),
            final(self).solved_spec() == old(self).solved_spec(),
    {
        let ghost start = self.table@;
        let mut coord: usize = 0;
        while coord < self.max_size
            invariant
                self.inv(),
                distance < 26,
                movetables.wf(),
                movetables.size_spec() == self.max_size,
                self.turn_set@ == movetables.turns_spec(),
                self.turn_set@ == old(self).turn_set@,
                self.max_size == old(self).max_size,
                self.solved_coords@ == old(self).solved_coords@,
                coord <= self.max_size,
                bounded(self.table@, distance + 1),
                inverse_closed(movetables) ==> has_witnesses(self.table@, movetables),
                inverse_closed(movetables) ==> closed_below(self.table@, movetables, distance as int),
                forall|c: int| 0 <= c < self.max_size && start[c] == distance ==> #[trigger] self.table@[c] == distance,
                forall|c: int| 0 <= c < coord ==> (#[trigger] self.table@[c] != UNFILLED && self.table@[c] <= distance + 1)
                    || forall|i: int| 0 <= i < movetables.turns_spec().len()
                        ==> self.table@[movetables.image(c as nat, #[trigger] movetables.turns_spec()[i]) as int] != distance,
                forall|c: int| 0 <= c < self.max_size && self.table@[c] == distance ==> start[c] == distance,
            decreases self.max_size - coord,
        {
            if self.table[coord] > distance {
                let mut found = false;
                let mut k: usize = 0;
                while k < self.turn_set.len() && !found
                    invariant
                        self.inv(),
                        distance < 26,
                        movetables.wf(),
                        movetables.size_spec() == self.max_size,
                        self.turn_set@ == movetables.turns_spec(),
                        self.turn_set@ == old(self).turn_set@,
                        self.max_size == old(self).max_size,
                        self.solved_coords@ == old(self).solved_coords@,
                        coord < self.max_size,
                        found ==> self.table@[coord as int] == distance + 1,
                        !found ==> self.table@[coord as int] > distance,
                        k <= self.turn_set@.len(),
                        bounded(self.table@, distance + 1),
                        inverse_closed(movetables) ==> has_witnesses(self.table@, movetables),
                        inverse_closed(movetables) ==> closed_below(self.table@, movetables, distance as int),
                        forall|c: int| 0 <= c < self.max_size && start[c] == distance ==> #[trigger] self.table@[c] == distance,
                        forall|c: int| 0 <= c < coord ==> (#[trigger] self.table@[c] != UNFILLED && self.table@[c] <= distance + 1)
                            || forall|i: int| 0 <= i < movetables.turns_spec().len()
                                ==> self.table@[movetables.image(c as nat, #[trigger] movetables.turns_spec()[i]) as int] != distance,
                        forall|c: int| 0 <= c < self.max_size && self.table@[c] == distance ==> start[c] == distance,
                        !found ==> forall|i: int| 0 <= i < k
                            ==> self.table@[movetables.image(coord as nat, #[trigger] movetables.turns_spec()[i]) as int] != distance,
                    decreases self.turn_set@.len() - k + (if found { 0int } else { 1int }),
                {
                    let turn = self.turn_set[k];
                    proof {
                        assert(movetables.turns_spec()[k as int] == turn);
                    }
                    let new_coord = movetables.apply_move_to_coord(coord, &turn);
                    if self.table[new_coord] == distance {
                        let was_unfilled = self.table[coord] == UNFILLED;
                        let ghost t0 = self.table@;
                        proof {
                            lemma_count_filled_update(self.table@, coord as int, (distance + 1) as u8);
                            lemma_count_filled_bound(self.table@.update(coord as int, (distance + 1) as u8));
                        }
                        self.table.set(coord, distance + 1);
                        proof {
                            let t1 = self.table@;
                            if inverse_closed(movetables) {
                                assert forall|c: int| 0 <= c < t1.len() && t1[c] != UNFILLED && t1[c] > 0 implies #[trigger] witnessed(t1, movetables, c) by {
                                    if c == coord as int {
                                        assert(new_coord != coord);
                                        assert(t1[new_coord as int] == distance);
                                    } else {
                                        assert(witnessed(t0, movetables, c));
                                        let i = choose|i: int| 0 <= i < movetables.turns_spec().len()
                                            && t0[movetables.image(c as nat, movetables.turns_spec()[i]) as int] == t0[c] - 1;
                                        let w = movetables.image(c as nat, movetables.turns_spec()[i]) as int;
                                        movetables.lemma_image_in_range(c as nat, i);
                                        assert(t0[c] <= distance + 1);
                                        assert(w != coord as int);
                                        assert(t1[w] == t0[w]);
                                    }
                                }
                                assert forall|c: int| 0 <= c < t1.len() && t1[c] != UNFILLED && t1[c] < distance implies #[trigger] neighbors_close(t1, movetables, c) by {
                                    assert(neighbors_close(t0, movetables, c));
                                    lemma_write_keeps_close(t0, movetables, coord as int, distance as int, c);
                                }
                            }
                            assert forall|c: int| 0 <= c < coord implies (#[trigger] t1[c] != UNFILLED && t1[c] <= distance + 1)
                                || forall|i: int| 0 <= i < movetables.turns_spec().len()
                                    ==> t1[movetables.image(c as nat, #[trigger] movetables.turns_spec()[i]) as int] != distance by {
                                if !(t0[c] != UNFILLED && t0[c] <= distance + 1) {
                                    assert forall|i: int| 0 <= i < movetables.turns_spec().len()
                                        implies t1[movetables.image(c as nat, #[trigger] movetables.turns_spec()[i]) as int] != distance by {
                                        movetables.lemma_image_in_range(c as nat, i);
                                    }
                                }
                            }
                        }
                        if was_unfilled {
                            self.num_filled = self.num_filled + 1;
                        }
                        found = true;
                    } else {
                        k = k + 1;
                    }
                }
            }
            coord = coord + 1;
        }
        proof {
            if inverse_closed(movetables) {
                let t = self.table@;
                assert forall|c: int| 0 <= c < t.len() && t[c] != UNFILLED && t[c] < distance + 1 implies #[trigger] neighbors_close(t, movetables, c) by {
                    if t[c] == distance {
                        assert forall|i: int| 0 <= i < movetables.turns_spec().len() implies {
                            &&& t[#[trigger] movetables.image(c as nat, movetables.turns_spec()[i]) as int] != UNFILLED
                            &&& t[movetables.image(c as nat, movetables.turns_spec()[i]) as int] <= t[c] + 1
                        } by {
                            let n = movetables.image(c as nat, movetables.turns_spec()[i]);
                            movetables.lemma_image_in_range(c as nat, i);
                            assert(has_inverse(movetables, i));
                            let j = choose|j: int| 0 <= j < movetables.turns_spec().len() && #[trigger] undoes(movetables, i, j);
                            assert(movetables.image(n, movetables.turns_spec()[j]) == c);
                            assert(t[movetables.image(n, movetables.turns_spec()[j]) as int] == distance);
                        }
                    }
                }
            }
        }
    }

    /// Fill the table pass by pass: forward from the coordinates at the current distance while
    /// fewer than half the entries are filled, then backward from the unfilled coordinates.
    /// Returns false when the distance ceiling is passed before every entry is filled.
    fn generate(&mut self, move_tables: &MoveTables) -> (complete: bool)
        requires
            move_tables.wf(),
            move_tables.size_spec() == old(self).size_spec(),
            old(self).turns_spec() == move_tables.turns_spec(),
            forall|i: int| 0 <= i < old(self).solved_spec().len() ==> #[trigger] old(self).solved_spec()[i] < old(self).size_spec(),
        ensures
            final(self).turns_spec() == old(self).turns_spec(),
            final(self).size_spec() == old(self).size_spec(),
            final(self).solved_spec() == old(self).solved_spec(),
            complete ==> final(self).wf(),
            complete && inverse_closed(move_tables) ==> has_witnesses(final(self).table@, move_tables),
            complete && inverse_closed(move_tables) ==> forall|c: int| 0 <= c < final(self).table@.len() ==> #[trigger] neighbors_close(final(self).table@, move_tables, c),
            complete ==> bounded(final(self).table@, MAX_SEARCH_DISTANCE as int),
            inverse_closed(move_tables) && reaches_within(move_tables, old(self).solved_spec(), old(self).size_spec(), MAX_SEARCH_DISTANCE as nat) ==> complete,
    {
        proof {
            assert forall|i: int| 0 <= i < self.solved_coords@.len() implies #[trigger] self.solved_coords@[i] < self.max_size by {
                assert(self.solved_spec()[i] < self.size_spec());
            }
        }
        self.init_table();
        proof {
            assert(bounded(self.table@, 0));
            assert forall|c: int| 0 <= c < self.table@.len() && self.table@[c] != UNFILLED && self.table@[c] > 0 implies #[trigger] witnessed(self.table@, move_tables, c) by {}
            assert forall|c: int| 0 <= c < self.table@.len() && self.table@[c] != UNFILLED && self.table@[c] < 0 implies #[trigger] neighbors_close(self.table@, move_tables, c) by {}
        }
        let mut distance: u8 = 0;
        let size = self.max_size;
        let forward_threshold = size / 2;
        while self.num_filled < size
            invariant
                self.inv(),
                size == self.max_size,
                move_tables.wf(),
                move_tables.size_spec() == self.max_size,
                self.turn_set@ == move_tables.turns_spec(),
                self.turn_set@ == old(self).turn_set@,
                self.max_size == old(self).max_size,
                self.solved_coords@ == old(self).solved_coords@,
                distance <= MAX_SEARCH_DISTANCE,
                bounded(self.table@, distance as int),
                inverse_closed(move_tables) ==> has_witnesses(self.table@, move_tables),
                inverse_closed(move_tables) ==> closed_below(self.table@, move_tables, distance as int),
            decreases MAX_SEARCH_DISTANCE - distance,
        {
            proof {
                if distance == MAX_SEARCH_DISTANCE && inverse_closed(move_tables)
                    && reaches_within(move_tables, self.solved_coords@, self.max_size as nat, MAX_SEARCH_DISTANCE as nat) {
                    let t = self.table@;
                    assert forall|c: int| 0 <= c < t.len() implies #[trigger] t[c] != UNFILLED by {
                        let cn = c as nat;
                        assert(cn < self.max_size);
                        assert(reachable_within(move_tables, self.solved_coords@, cn, MAX_SEARCH_DISTANCE as nat));
                        let ts = choose|ts: Seq<Turn>| #[trigger] reach_path(move_tables, self.solved_coords@, cn, ts, MAX_SEARCH_DISTANCE as nat);
                        crate::solver::lemma_walk_in_range(move_tables, cn, ts);
                        let w = walk(move_tables, cn, ts);
                        assert((w as usize) as int == w as int);
                        assert(t[w as int] == 0);
                        lemma_filled_along(t, move_tables, cn, ts, MAX_SEARCH_DISTANCE as int);
                    }
                    lemma_count_filled_full(t);
                    assert(false);
                }
            }
            if self.num_filled < forward_threshold {
                self.forward_fill_single_pass(distance, move_tables);
            } else {
                self.backward_fill_single_pass(distance, move_tables);
            }
            if distance == MAX_SEARCH_DISTANCE {
                return false;
            }
            distance = distance + 1;
        }
        proof {
            lemma_count_filled_bound(self.table@);
            if inverse_closed(move_tables) {
                let t = self.table@;
                assert forall|c: int| 0 <= c < t.len() implies #[trigger] neighbors_close(t, move_tables, c) by {
                    if t[c] >= distance {
                        assert forall|i: int| 0 <= i < move_tables.turns_spec().len() implies {
                            &&& t[#[trigger] move_tables.image(c as nat, move_tables.turns_spec()[i]) as int] != UNFILLED
                            &&& t[move_tables.image(c as nat, move_tables.turns_spec()[i]) as int] <= t[c] + 1
                        } by {
                            move_tables.lemma_image_in_range(c as nat, i);
                        }
                    }
                }
            }
        }
        true
    }

    /// The pruning table of a coordinate type under the turns of its move tables, or `None`
    /// when the turns do not reach every coordinate within the distance ceiling.
    pub fn new<C: Coordinate>(coord_type: C, move_tables: &MoveTables) -> (table: Option<Self>)
        requires
            move_tables.wf(),
            move_tables.size_spec() == coord_type.size_spec(),
        ensures
            table matches Some(t) ==> {
                &&& t.wf()
                &&& t.size_spec() == coord_type.size_spec()
                &&& t.solved_spec() == coord_type.solved_spec()
                &&& t.turns_spec() == move_tables.turns_spec()
                &&& inverse_closed(move_tables) ==> t.descends(move_tables)
                &&& inverse_closed(move_tables) ==> t.steps_down(move_tables)
                &&& inverse_closed(move_tables) ==> t.within_one(move_tables)
                &&& inverse_closed(move_tables) ==> reaches_within(move_tables, coord_type.solved_spec(), coord_type.size_spec(), MAX_SEARCH_DISTANCE as nat)
            },
            inverse_closed(move_tables) && reaches_within(move_tables, coord_type.solved_spec(), coord_type.size_spec(), MAX_SEARCH_DISTANCE as nat)
                ==> table is Some,
    {
        let size = coord_type.get_size();
        let solved = coord_type.get_solved_coords();
        let mut tables = Self::empty(move_tables.get_turns(), size, solved);
        if tables.generate(move_tables) {
            proof {
                if inverse_closed(move_tables) {
                    assert forall|c: int| 0 <= c < tables.size_spec() && #[trigger] tables.distances()[c] > 0 implies exists|i: int|
                        0 <= i < move_tables.turns_spec().len() && tables.distances()[move_tables.image(c as nat, move_tables.turns_spec()[i]) as int] == tables.distances()[c] - 1 by {
                        assert(witnessed(tables.table@, move_tables, c));
                    }
                    let t = tables.table@;
                    assert forall|c: int, i: int| 0 <= c < tables.size_spec() && 0 <= i < move_tables.turns_spec().len() implies {
                        &&& tables.distances()[#[trigger] move_tables.image(c as nat, move_tables.turns_spec()[i]) as int] <= tables.distances()[c] + 1
                        &&& tables.distances()[c] <= tables.distances()[move_tables.image(c as nat, move_tables.turns_spec()[i]) as int] + 1
                    } by {
                        let n = move_tables.image(c as nat, move_tables.turns_spec()[i]);
                        move_tables.lemma_image_in_range(c as nat, i);
                        assert(t.len() == tables.size_spec());
                        assert(neighbors_close(t, move_tables, c));
                        assert(t[n as int] <= t[c] + 1);
                        assert(has_inverse(move_tables, i));
                        let j = choose|j: int| 0 <= j < move_tables.turns_spec().len() && #[trigger] undoes(move_tables, i, j);
                        assert(move_tables.image(n, move_tables.turns_spec()[j]) == c);
                        let ni = n as int;
                        assert(ni as nat == n);
                        move_tables.lemma_image_in_range(c as nat, i);
                        assert(0 <= ni < t.len());
                        assert(neighbors_close(t, move_tables, ni));
                        assert(t[move_tables.image(ni as nat, move_tables.turns_spec()[j]) as int] <= t[ni] + 1);
                        assert(t[c] <= t[n as int] + 1);
                    }
                    assert forall|c: nat| c < tables.size_spec() implies #[trigger] reachable_within(move_tables, tables.solved_spec(), c, MAX_SEARCH_DISTANCE as nat) by {
                        lemma_descent_path(&tables, move_tables, c);
                    }
                }
            }
            Some(tables)
        } else {
            None
        }
    }

    pub fn get_distance(&self, coord: usize) -> (distance: u8)
        requires
            coord < self.distances().len(),
        ensures
            distance == self.distances()[coord as int],
    {
        self.table[coord]
    }

    /// Whether every coordinate at a positive distance has a turn that leads closer.
    pub fn is_descending(&self, move_tables: &MoveTables) -> (r: bool)
        requires
            self.wf(),
            move_tables.wf(),
            move_tables.size_spec() == self.size_spec(),
        ensures
            r == self.descends(move_tables),
    {
        let turns = move_tables.get_turns();
        let mut coord: usize = 0;
        while coord < self.max_size
            invariant
                self.wf(),
                move_tables.wf(),
                move_tables.size_spec() == self.max_size,
                turns@ == move_tables.turns_spec(),
                coord <= self.max_size,
                forall|c: int|
                    0 <= c < coord && #[trigger] self.distances()[c] > 0 ==> exists|i: int|
                        0 <= i < move_tables.turns_spec().len() && self.distances()[move_tables.image(c as nat, move_tables.turns_spec()[i]) as int] < self.distances()[c],
            decreases self.max_size - coord,
        {
            let d = self.table[coord];
            if d > 0 {
                let mut found = false;
                let mut k: usize = 0;
                while k < turns.len()
                    invariant
                        self.wf(),
                        move_tables.wf(),
                        move_tables.size_spec() == self.max_size,
                        turns@ == move_tables.turns_spec(),
                        coord < self.max_size,
                        d == self.distances()[coord as int],
                        k <= turns@.len(),
                        found ==> exists|i: int|
                            0 <= i < move_tables.turns_spec().len() && self.distances()[move_tables.image(coord as nat, move_tables.turns_spec()[i]) as int] < d,
                        !found ==> forall|i: int| 0 <= i < k ==>
                            self.distances()[move_tables.image(coord as nat, #[trigger] move_tables.turns_spec()[i]) as int] >= d,
                    decreases turns@.len() - k,
                {
                    let turn = turns[k];
                    proof {
                        assert(move_tables.turns_spec().contains(turn));
                    }
                    let new_coord = move_tables.apply_move_to_coord(coord, &turn);
                    if self.table[new_coord] < d {
                        found = true;
                    }
                    k = k + 1;
                }
                if !found {
                    return false;
                }
            }
            coord = coord + 1;
        }
        true
    }
}

} // verus!
