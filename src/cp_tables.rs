//! The move tables of the corner permutation under the outer-layer turns: every turn is undone
//! by another, so each table is one-to-one and the pruning table descends one step at a time.
use vstd::prelude::*;
use crate::coordinate::Coordinate;
use crate::coordutils::{flip_coord, lemma_flip_coord_bound, lemma_twist_coord_bound, pow3};
use crate::movetables::{
    MoveTables, turns_image, turn_word_image, inverse_closed, has_inverse, undoes, from_move_set, lemma_tables_injective,
};
use crate::pruningtables::PruningTable;
use crate::movetables::layer_turns_only;
use crate::orientation::{
    EOFBCoord, bad_count, eo_flips, eo_example, eo_project, lemma_eo_flips_of_project, lemma_eo_round_trip,
    lemma_flips_of_len, COUDCoord, twist_total, co_twists, co_example, co_project, lemma_co_twists_of_project,
    lemma_co_round_trip, lemma_twists_of_len,
};
use crate::rawcube::{
    CubeModel, Flip, Twist, flip_value, flipped, flip_of, twist_value, twist_of, twist_sum, swap_at, swaps_applied,
    swaps_in_range, flips_applied, twists_applied,
    effect_applied, effect_repeated, layer_effect, is_layer_turn, lemma_layer_effect_wf,
};
use crate::turndef::{Turn, base_turns_of, outer_layer_turns, base_outer_layer_turns, lemma_base_turns_of_power};
use crate::edge_perm::{
    ESliceEdgeSepCoord, sep_example, sep_project, e_slice_edges, e_ud_swaps, lemma_merge_facts,
    lemma_e_ud_swaps_twice, lemma_sep_round_trip, lemma_edge_counts, ud_edges,
};
use crate::coordinate::{edge_indices, edge_at};
use crate::layered::{layer_flags, holds_group, lemma_swaps_map, lemma_swaps_keep_group};
use crate::coordutils::{count_true, dist_coord, dist_decode, merge_by, lemma_dist_coord_round_trip, lemma_dist_coord_bound};
use crate::rawcube::{Edge, edge_index};
use crate::corner_perm::{CornerPermCoord, cp_example, cp_project, lemma_cp_round_trip, lemma_corner_counts};
use crate::coordinate::corner_indices;
use crate::coordutils::{count_greater, descending, perm_decode, perm_coord, lemma_perm_decode_of_coord_counts, lemma_count_greater_swaps, lemma_perm_decode_digits, strictly_descending};
use crate::rawcube::{Corner, corner_index, corner_at};
use crate::rawcube::effects_applied;
use crate::turnlaws::{
    lemma_repeat_is_repeated,
    flips_closed, lemma_flips_closed, twists_closed, lemma_twists_closed, lemma_repeated_add,
    lemma_quarter_turn_four_times,
};

use crate::outer_tables::{lemma_outer_entry, lemma_closed_tables_laws, outer_tables_of};

verus! {

// ----- corner permutation -----

/// The corners hold the eight corners, each once (counted by how many exceed each index).
pub open spec fn cp_valid(m: CubeModel) -> bool {
    &&& m.corners.len() == 8
    &&& forall|x: usize| #[trigger] count_greater(corner_indices(m.corners), x) == count_greater(descending(8), x)
}

proof fn lemma_cp_example_valid(c: nat)
    requires
        c < 40320,
    ensures
        cp_valid(cp_example(c)),
        cp_example(c).wf(),
{
    lemma_corner_counts();
    crate::layered::lemma_perm_decode_range(c, 8);
    let p = perm_decode(c, 8);
    assert(corner_indices(cp_example(c).corners) =~= p);
    assert(strictly_descending(descending(8)));
    lemma_perm_decode_digits(c, 8, descending(8), Seq::new(8, |k: int| 0usize));
    assert(p.take(8) =~= p);
}

proof fn lemma_cp_example_of_project(m: CubeModel)
    requires
        cp_valid(m),
    ensures
        cp_example(cp_project(m)).corners == m.corners,
        cp_project(m) < 40320,
{
    lemma_corner_counts();
    let ix = corner_indices(m.corners);
    lemma_perm_decode_of_coord_counts(ix, 8);
    assert(cp_example(cp_project(m)).corners =~= m.corners) by {
        assert forall|k: int| 0 <= k < 8 implies #[trigger] cp_example(cp_project(m)).corners[k] == m.corners[k] by {
            assert(perm_decode(perm_coord(ix), 8)[k] == ix[k]);
        }
    }
}

proof fn lemma_cp_repeated_valid(m: CubeModel, t: Turn, k: nat)
    requires
        cp_valid(m),
        is_layer_turn(t),
    ensures
        cp_valid(effect_repeated(m, layer_effect(t), k)),
    decreases k,
{
    if k > 0 {
        lemma_cp_repeated_valid(m, t, (k - 1) as nat);
        let e = layer_effect(t);
        lemma_layer_effect_wf(t);
        let mk = effect_repeated(m, e, (k - 1) as nat);
        lemma_swaps_map(mk.corners, e.corner_swaps, |x: Corner| corner_index(x) as usize);
        assert forall|x: usize| #[trigger] count_greater(corner_indices(effect_applied(mk, e).corners), x) == count_greater(descending(8), x) by {
            lemma_count_greater_swaps(corner_indices(mk.corners), e.corner_swaps, x);
        }
    }
}


proof fn lemma_repeated_corners_congruent(x: CubeModel, y: CubeModel, t: Turn, k: nat)
    requires
        x.corners == y.corners,
    ensures
        effect_repeated(x, layer_effect(t), k).corners == effect_repeated(y, layer_effect(t), k).corners,
    decreases k,
{
    if k > 0 {
        lemma_repeated_corners_congruent(x, y, t, (k - 1) as nat);
    }
}

proof fn lemma_cp_turns_image(c: nat, t: Turn, k: nat)
    requires
        c < 40320,
        is_layer_turn(t),
    ensures
        turns_image(CornerPermCoord {  }, c, Seq::new(k, |_i: int| t)) == cp_project(effect_repeated(cp_example(c), layer_effect(t), k)),
    decreases k,
{
    if k == 0 {
        lemma_cp_round_trip(c);
    } else {
        lemma_cp_turns_image(c, t, (k - 1) as nat);
        assert(Seq::new(k, |_i: int| t).drop_last() =~= Seq::new((k - 1) as nat, |_i: int| t));
        let big_m = effect_repeated(cp_example(c), layer_effect(t), (k - 1) as nat);
        lemma_cp_example_valid(c);
        lemma_cp_repeated_valid(cp_example(c), t, (k - 1) as nat);
        lemma_cp_example_of_project(big_m);
        let v = cp_project(big_m);
        assert(cp_example(v).corners == big_m.corners);
    }
}

proof fn lemma_cp_power_undone(c: nat, t: Turn, k: nat)
    requires
        c < 40320,
        is_layer_turn(t),
        1 <= k <= 3,
    ensures
        turn_word_image(CornerPermCoord {  }, turn_word_image(CornerPermCoord {  }, c, Turn((k * t.0) as u32)), Turn(((4 - k) as nat * t.0) as u32)) == c,
{
    let e = layer_effect(t);
    lemma_base_turns_of_power(t, k);
    lemma_base_turns_of_power(t, (4 - k) as nat);
    lemma_cp_turns_image(c, t, k);
    let mk = effect_repeated(cp_example(c), e, k);
    lemma_cp_example_valid(c);
    lemma_cp_repeated_valid(cp_example(c), t, k);
    lemma_cp_example_of_project(mk);
    let v = cp_project(mk);
    lemma_cp_turns_image(v, t, (4 - k) as nat);
    assert(cp_example(v).corners == mk.corners);
    lemma_repeated_corners_congruent(cp_example(v), mk, t, (4 - k) as nat);
    lemma_repeated_add(cp_example(c), e, k, (4 - k) as nat);
    lemma_quarter_turn_four_times(cp_example(c), t);
    lemma_cp_round_trip(c);
}

proof fn lemma_cp_has_inverse_for(tables: &MoveTables, a: int, w: Turn, k: nat)
    requires
        tables.wf(),
        tables.size_spec() == 40320,
        forall|c: nat, t: Turn| #[trigger] tables.image(c, t) == turn_word_image(CornerPermCoord {  }, c, t),
        0 <= a < tables.turns_spec().len(),
        is_layer_turn(w),
        1 <= k <= 3,
        tables.turns_spec()[a] == Turn((k * w.0) as u32),
        tables.turns_spec().contains(Turn(((4 - k) as nat * w.0) as u32)),
    ensures
        has_inverse(tables, a),
{
    let u = Turn(((4 - k) as nat * w.0) as u32);
    let b = choose|b: int| 0 <= b < tables.turns_spec().len() && tables.turns_spec()[b] == u;
    assert forall|c: nat| c < tables.size_spec() implies #[trigger] tables.image(tables.image(c, tables.turns_spec()[a]), tables.turns_spec()[b]) == c by {
        lemma_cp_power_undone(c, w, k);
    }
    assert(undoes(tables, a, b));
}

/// The move tables of the corner permutation coordinate under the outer-layer turns: every
/// turn of the tables is undone by another turn of the tables.
#[verifier::rlimit(60)]
pub proof fn lemma_cp_tables_inverse_closed(tables: &MoveTables)
    requires
        tables.wf(),
        tables.size_spec() == 40320,
        forall|c: nat, t: Turn| #[trigger] tables.image(c, t) == turn_word_image(CornerPermCoord {  }, c, t),
        forall|i: int| 0 <= i < 18 ==> tables.turns_spec().contains(#[trigger] outer_layer_turns()[i]),
        forall|a: int| 0 <= a < tables.turns_spec().len() ==> from_move_set(outer_layer_turns(), #[trigger] tables.turns_spec()[a]),
    ensures
        inverse_closed(tables),
{
    let outer = outer_layer_turns();
    assert forall|a: int| 0 <= a < tables.turns_spec().len() implies #[trigger] has_inverse(tables, a) by {
        let t = tables.turns_spec()[a];
        assert(from_move_set(outer, t));
        if outer.contains(t) {
            let i = choose|i: int| 0 <= i < outer.len() && outer[i] == t;
            lemma_outer_entry(i);
            let inv = 3 * (i / 3) + 2 - i % 3;
            assert(tables.turns_spec().contains(outer[inv]));
            lemma_cp_has_inverse_for(tables, a, base_outer_layer_turns()[i / 3], ((i % 3) + 1) as nat);
        } else {
            let (i, j) = choose|i: int, j: int| 0 <= i < outer.len() && 0 <= j < base_turns_of(outer[i]).len() && #[trigger] base_turns_of(outer[i])[j] == t;
            lemma_outer_entry(i);
            let w = base_outer_layer_turns()[i / 3];
            lemma_base_turns_of_power(w, ((i % 3) + 1) as nat);
            assert(t == w);
            assert(w == Turn((1 * w.0) as u32));
            lemma_outer_entry(3 * (i / 3));
            let inv = 3 * (i / 3) + 2;
            assert(tables.turns_spec().contains(outer[inv]));
            lemma_cp_has_inverse_for(tables, a, w, 1);
        }
    }
}

/// Each corner permutation table maps distinct coordinates to distinct coordinates of the same
/// range; in its pruning table every coordinate at a positive distance has a turn to a
/// coordinate exactly one closer, and no turn changes the distance by more than one.
pub proof fn lemma_cp_tables_laws(tables: &MoveTables, pruning: &PruningTable, i: int, c1: nat, c2: nat)
    requires
        outer_tables_of(CornerPermCoord {  }, tables),
        inverse_closed(tables) ==> pruning.steps_down(tables),
        inverse_closed(tables) ==> pruning.within_one(tables),
        0 <= i < tables.turns_spec().len(),
        c1 < tables.size_spec(),
        c2 < tables.size_spec(),
    ensures
        tables.image(c1, tables.turns_spec()[i]) < tables.size_spec(),
        tables.image(c1, tables.turns_spec()[i]) == tables.image(c2, tables.turns_spec()[i]) ==> c1 == c2,
        pruning.steps_down(tables),
        pruning.within_one(tables),
{
    lemma_cp_tables_inverse_closed(tables);
    lemma_closed_tables_laws(tables, pruning, i, c1, c2);
}

/// Each outer-layer turn's table entry is the coordinate found through the raw state: the
/// example state with the effects of all the turn's base turns applied, read back.
pub proof fn lemma_cp_turn_follows_raw_state(tables: &MoveTables, c: nat, i: int)
    requires
        forall|x: nat, t: Turn| #[trigger] tables.image(x, t) == turn_word_image(CornerPermCoord {  }, x, t),
        c < 40320,
        0 <= i < 18,
    ensures
        tables.image(c, outer_layer_turns()[i]) == cp_project(effects_applied(cp_example(c), base_turns_of(outer_layer_turns()[i]))),
{
    lemma_outer_entry(i);
    let w = base_outer_layer_turns()[i / 3];
    let k = ((i % 3) + 1) as nat;
    lemma_base_turns_of_power(w, k);
    lemma_cp_turns_image(c, w, k);
    lemma_repeat_is_repeated(cp_example(c), w, k);
}

} // verus!
