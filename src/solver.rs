//! Optimal solving by descent of a pruning table.
use vstd::prelude::*;
use crate::movetables::MoveTables;
use crate::pruningtables::PruningTable;
use crate::turndef::Turn;

verus! {

/// The coordinate reached from c by the turns ts, read from the move tables.
pub open spec fn walk(move_tables: &MoveTables, c: nat, ts: Seq<Turn>) -> nat
    decreases ts.len(),
{
    if ts.len() == 0 {
        c
    } else {
        move_tables.image(walk(move_tables, c, ts.drop_last()), ts.last())
    }
}

/// Turn number idx of the move tables is the first, in their order, that leads from c to a
/// coordinate at a smaller distance.
pub open spec fn first_descent(move_tables: &MoveTables, pruning: &PruningTable, c: nat, idx: int) -> bool {
    &&& 0 <= idx < move_tables.turns_spec().len()
    &&& pruning.distances()[move_tables.image(c, move_tables.turns_spec()[idx]) as int] < pruning.distances()[c as int]
    &&& forall|j: int| 0 <= j < idx ==>
        pruning.distances()[move_tables.image(c, #[trigger] move_tables.turns_spec()[j]) as int] >= pruning.distances()[c as int]
}

/// Step k of the solution takes the first turn that descends from where step k starts.
pub open spec fn takes_first_descent(move_tables: &MoveTables, pruning: &PruningTable, c: nat, solution: Seq<Turn>, k: int) -> bool {
    exists|idx: int|
        #[trigger] first_descent(move_tables, pruning, walk(move_tables, c, solution.take(k)), idx)
            && move_tables.turns_spec()[idx] == solution[k]
}

/// Repeatedly take the first turn, in the order of the move tables, that leads to a coordinate
/// at a smaller distance, until the distance is 0.
pub fn solve_optimally(coord: usize, movetables: MoveTables, pruningtables: PruningTable) -> (solution: Vec<Turn>)
    requires
        movetables.wf(),
        pruningtables.wf(),
        movetables.size_spec() == pruningtables.size_spec(),
        coord < pruningtables.size_spec(),
        pruningtables.descends(&movetables),
    ensures
        pruningtables.distances()[walk(&movetables, coord as nat, solution@) as int] == 0,
        solution@.len() <= pruningtables.distances()[coord as int],
        forall|i: int| 0 <= i < solution@.len() ==> movetables.turns_spec().contains(#[trigger] solution@[i]),
        forall|k: int|
            0 <= k < solution@.len() ==> pruningtables.distances()[walk(&movetables, coord as nat, solution@.take(k + 1)) as int]
                < #[trigger] pruningtables.distances()[walk(&movetables, coord as nat, solution@.take(k)) as int],
        forall|k: int| 0 <= k < solution@.len() ==> #[trigger] takes_first_descent(&movetables, &pruningtables, coord as nat, solution@, k),
{
    let mut coord_now = coord;
    let mut current_distance = pruningtables.get_distance(coord);
    let mut solution: Vec<Turn> = Vec::new();
    let turns = movetables.get_turns();
    proof {
        assert(solution@ =~= Seq::<Turn>::empty());
    }
    while current_distance > 0
        invariant
            movetables.wf(),
            pruningtables.wf(),
            movetables.size_spec() == pruningtables.size_spec(),
            pruningtables.descends(&movetables),
            turns@ == movetables.turns_spec(),
            coord < pruningtables.size_spec(),
            coord_now < pruningtables.size_spec(),
            coord_now == walk(&movetables, coord as nat, solution@),
            current_distance == pruningtables.distances()[coord_now as int],
            solution@.len() + current_distance <= pruningtables.distances()[coord as int],
            forall|i: int| 0 <= i < solution@.len() ==> movetables.turns_spec().contains(#[trigger] solution@[i]),
            forall|k: int|
                0 <= k < solution@.len() ==> pruningtables.distances()[walk(&movetables, coord as nat, solution@.take(k + 1)) as int]
                    < #[trigger] pruningtables.distances()[walk(&movetables, coord as nat, solution@.take(k)) as int],
            forall|k: int| 0 <= k < solution@.len() ==> #[trigger] takes_first_descent(&movetables, &pruningtables, coord as nat, solution@, k),
        decreases current_distance,
    {
        let mut k: usize = 0;
        let mut next: Option<(Turn, usize)> = None;
        while k < turns.len() && next.is_none()
            invariant
                movetables.wf(),
                pruningtables.wf(),
                movetables.size_spec() == pruningtables.size_spec(),
                turns@ == movetables.turns_spec(),
                coord_now < pruningtables.size_spec(),
                current_distance == pruningtables.distances()[coord_now as int],
                k <= turns@.len(),
                next matches Some(p) ==> {
                    &&& movetables.turns_spec().contains(p.0)
                    &&& first_descent(&movetables, &pruningtables, coord_now as nat, k as int)
                    &&& movetables.turns_spec()[k as int] == p.0
                    &&& p.1 == movetables.image(coord_now as nat, p.0)
                    &&& p.1 < pruningtables.size_spec()
                    &&& pruningtables.distances()[p.1 as int] < current_distance
                },
                next is None ==> forall|i: int| 0 <= i < k ==>
                    pruningtables.distances()[movetables.image(coord_now as nat, #[trigger] movetables.turns_spec()[i]) as int] >= current_distance,
            decreases turns@.len() - k + (if next is None { 1int } else { 0int }),
        {
            let turn = turns[k];
            proof {
                assert(movetables.turns_spec().contains(turn));
            }
            let new_coord = movetables.apply_move_to_coord(coord_now, &turn);
            let new_distance = pruningtables.get_distance(new_coord);
            if new_distance < current_distance {
                next = Some((turn, new_coord));
            } else {
                k = k + 1;
            }
        }
        match next {
            Some((turn, new_coord)) => {
                let ghost before = solution@;
                let ghost idx = k as int;
                current_distance = pruningtables.get_distance(new_coord);
                solution.push(turn);
                coord_now = new_coord;
                proof {
                    assert(solution@.drop_last() =~= before);
                    assert forall|k: int| 0 <= k < solution@.len() implies pruningtables.distances()[walk(&movetables, coord as nat, solution@.take(k + 1)) as int]
                        < #[trigger] pruningtables.distances()[walk(&movetables, coord as nat, solution@.take(k)) as int] by {
                        if k < before.len() {
                            assert(solution@.take(k + 1) =~= before.take(k + 1));
                            assert(solution@.take(k) =~= before.take(k));
                        } else {
                            assert(solution@.take(k + 1) =~= solution@);
                            assert(solution@.take(k) =~= before);
                        }
                    }
                    assert forall|k: int| 0 <= k < solution@.len() implies #[trigger] takes_first_descent(&movetables, &pruningtables, coord as nat, solution@, k) by {
                        if k < before.len() {
                            assert(solution@.take(k) =~= before.take(k));
                            assert(solution@[k] == before[k]);
                            assert(takes_first_descent(&movetables, &pruningtables, coord as nat, before, k));
                            let i = choose|i: int| #[trigger] first_descent(&movetables, &pruningtables, walk(&movetables, coord as nat, before.take(k)), i)
                                && movetables.turns_spec()[i] == before[k];
                            assert(first_descent(&movetables, &pruningtables, walk(&movetables, coord as nat, solution@.take(k)), i));
                        } else {
                            assert(solution@.take(k) =~= before);
                            assert(first_descent(&movetables, &pruningtables, walk(&movetables, coord as nat, solution@.take(k)), idx));
                        }
                    }
                }
            },
            None => {
                proof {
                    let c = coord_now as int;
                    assert(pruningtables.distances()[c] > 0);
                    let i = choose|i: int|
                        0 <= i < movetables.turns_spec().len() && pruningtables.distances()[movetables.image(c as nat, movetables.turns_spec()[i]) as int] < pruningtables.distances()[c];
                    assert(false);
                }
            },
        }
    }
    solution
}

/// Where no turn changes the distance by more than one, a coordinate needs at least its
/// distance in turns to reach a coordinate at distance 0: a descent taken by
/// `solve_optimally`, which needs no more, is as short as any.
pub proof fn lemma_no_shorter_solution(move_tables: &MoveTables, pruning: &PruningTable, c: nat, ts: Seq<Turn>)
    requires
        move_tables.wf(),
        pruning.wf(),
        move_tables.size_spec() == pruning.size_spec(),
        pruning.within_one(move_tables),
        c < pruning.size_spec(),
        forall|i: int| 0 <= i < ts.len() ==> move_tables.turns_spec().contains(#[trigger] ts[i]),
    ensures
        walk(move_tables, c, ts) < pruning.size_spec(),
        pruning.distances()[walk(move_tables, c, ts) as int] + ts.len() >= pruning.distances()[c as int],
    decreases ts.len(),
{
    if ts.len() > 0 {
        let rest = ts.drop_last();
        assert forall|i: int| 0 <= i < rest.len() implies move_tables.turns_spec().contains(#[trigger] rest[i]) by {
            assert(rest[i] == ts[i]);
        }
        lemma_no_shorter_solution(move_tables, pruning, c, rest);
        let v = walk(move_tables, c, rest);
        assert(move_tables.turns_spec().contains(ts[ts.len() - 1]));
        let i = choose|i: int| 0 <= i < move_tables.turns_spec().len() && move_tables.turns_spec()[i] == ts.last();
        move_tables.lemma_image_in_range(v, i);
        let vi = v as int;
        assert(vi as nat == v);
        assert(pruning.distances()[vi] <= pruning.distances()[move_tables.image(vi as nat, move_tables.turns_spec()[i]) as int] + 1);
    }
}

/// Walking by turns of the move tables from a coordinate stays among the coordinates.
pub proof fn lemma_walk_in_range(move_tables: &MoveTables, c: nat, ts: Seq<Turn>)
    requires
        move_tables.wf(),
        c < move_tables.size_spec(),
        forall|i: int| 0 <= i < ts.len() ==> move_tables.turns_spec().contains(#[trigger] ts[i]),
    ensures
        walk(move_tables, c, ts) < move_tables.size_spec(),
    decreases ts.len(),
{
    if ts.len() > 0 {
        let rest = ts.drop_last();
        assert forall|i: int| 0 <= i < rest.len() implies move_tables.turns_spec().contains(#[trigger] rest[i]) by {
            assert(rest[i] == ts[i]);
        }
        lemma_walk_in_range(move_tables, c, rest);
        assert(move_tables.turns_spec().contains(ts[ts.len() - 1]));
        let i = choose|i: int| 0 <= i < move_tables.turns_spec().len() && move_tables.turns_spec()[i] == ts.last();
        move_tables.lemma_image_in_range(walk(move_tables, c, rest), i);
    }
}

} // verus!
