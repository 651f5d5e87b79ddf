//! The move tables of the E-slice edge separation under the outer-layer turns: every turn is
//! undone by another, so each table is one-to-one and the pruning table descends one step at a
//! time.
use vstd::prelude::*;
use crate::coordinate::Coordinate;
use crate::coordutils::{flip_coord, lemma_flip_coord_bound, lemma_twist_coord_bound, pow3};
use crate::movetables::{
    MoveTables, turns_image, turn_word_image, inverse_closed, has_inverse, undoes, from_move_set, lemma_tables_injective,
};
use crate::pruningtables::PruningTable;
use crate::movetables::layer_turns_only;
use crate::orientation::{
    EOFBCoord, bad_count, eo_flips, eo_example, eo_project, lemma_eo_flips_of_project, lemma_eo_round_trip,
    lemma_flips_of_len, COUDCoord, twist_total, co_twists, co_example, co_project, lemma_co_twists_of_project,
    lemma_co_round_trip, lemma_twists_of_len,
};
use crate::rawcube::{
    CubeModel, Flip, Twist, flip_value, flipped, flip_of, twist_value, twist_of, twist_sum, swap_at, swaps_applied,
    swaps_in_range, flips_applied, twists_applied,
    effect_applied, effect_repeated, layer_effect, is_layer_turn, lemma_layer_effect_wf,
};
use crate::turndef::{Turn, base_turns_of, outer_layer_turns, base_outer_layer_turns, lemma_base_turns_of_power};
use crate::edge_perm::{
    ESliceEdgeSepCoord, sep_example, sep_project, e_slice_edges, e_ud_swaps, lemma_merge_facts,
    lemma_e_ud_swaps_twice, lemma_sep_round_trip, lemma_edge_counts, ud_edges,
};
use crate::coordinate::{edge_indices, edge_at};
use crate::layered::{layer_flags, holds_group, lemma_swaps_map, lemma_swaps_keep_group};
use crate::coordutils::{count_true, dist_coord, dist_decode, merge_by, lemma_dist_coord_round_trip, lemma_dist_coord_bound};
use crate::rawcube::{Edge, edge_index};
use crate::corner_perm::{CornerPermCoord, cp_example, cp_project, lemma_cp_round_trip, lemma_corner_counts};
use crate::coordinate::corner_indices;
use crate::coordutils::{count_greater, descending, perm_decode, perm_coord, lemma_perm_decode_of_coord_counts, lemma_count_greater_swaps, lemma_perm_decode_digits, strictly_descending};
use crate::rawcube::{Corner, corner_index, corner_at};
use crate::rawcube::effects_applied;
use crate::turnlaws::{
    lemma_repeat_is_repeated,
    flips_closed, lemma_flips_closed, twists_closed, lemma_twists_closed, lemma_repeated_add,
    lemma_quarter_turn_four_times,
};

use crate::outer_tables::{lemma_outer_entry, lemma_closed_tables_laws, outer_tables_of};

verus! {

// ----- edge separation -----

/// Whether an edge is one of the E-slice edges.
pub open spec fn in_e_slice(e: Edge) -> bool {
    e_slice_edges().contains(edge_index(e) as usize)
}

proof fn lemma_sep_flags(s: Seq<Edge>)
    ensures
        layer_flags(edge_indices(s), e_slice_edges()) == s.map_values(|e: Edge| in_e_slice(e)),
{
    assert(layer_flags(edge_indices(s), e_slice_edges()) =~= s.map_values(|e: Edge| in_e_slice(e)));
}

/// The separation coordinate reads only which positions hold E-slice edges.
proof fn lemma_sep_project_flags(m: CubeModel)
    requires
        m.edges.len() == 12,
    ensures
        sep_project(m) == dist_coord(swaps_applied(m.edges.map_values(|e: Edge| in_e_slice(e)), e_ud_swaps())),
{
    assert(swaps_in_range(e_ud_swaps(), 12));
    lemma_swaps_map(m.edges, e_ud_swaps(), |e: Edge| in_e_slice(e));
    lemma_sep_flags(swaps_applied(m.edges, e_ud_swaps()));
}

proof fn lemma_repeated_edge_flags(x: CubeModel, y: CubeModel, t: Turn, k: nat)
    requires
        x.edges.len() == 12,
        y.edges.len() == 12,
        x.edges.map_values(|e: Edge| in_e_slice(e)) == y.edges.map_values(|e: Edge| in_e_slice(e)),
        is_layer_turn(t),
    ensures
        effect_repeated(x, layer_effect(t), k).edges.map_values(|e: Edge| in_e_slice(e))
            == effect_repeated(y, layer_effect(t), k).edges.map_values(|e: Edge| in_e_slice(e)),
        effect_repeated(x, layer_effect(t), k).edges.len() == 12,
        effect_repeated(y, layer_effect(t), k).edges.len() == 12,
    decreases k,
{
    if k > 0 {
        lemma_repeated_edge_flags(x, y, t, (k - 1) as nat);
        let e = layer_effect(t);
        lemma_layer_effect_wf(t);
        let xk = effect_repeated(x, e, (k - 1) as nat);
        let yk = effect_repeated(y, e, (k - 1) as nat);
        lemma_swaps_map(xk.edges, e.edge_swaps, |e: Edge| in_e_slice(e));
        lemma_swaps_map(yk.edges, e.edge_swaps, |e: Edge| in_e_slice(e));
    }
}

proof fn lemma_repeated_holds_group(m: CubeModel, t: Turn, k: nat)
    requires
        m.edges.len() == 12,
        holds_group(edge_indices(m.edges), e_slice_edges()),
        is_layer_turn(t),
    ensures
        effect_repeated(m, layer_effect(t), k).edges.len() == 12,
        holds_group(edge_indices(effect_repeated(m, layer_effect(t), k).edges), e_slice_edges()),
    decreases k,
{
    if k > 0 {
        lemma_repeated_holds_group(m, t, (k - 1) as nat);
        let e = layer_effect(t);
        lemma_layer_effect_wf(t);
        let mk = effect_repeated(m, e, (k - 1) as nat);
        lemma_swaps_map(mk.edges, e.edge_swaps, |x: Edge| edge_index(x) as usize);
        lemma_swaps_keep_group(edge_indices(mk.edges), e.edge_swaps, e_slice_edges());
    }
}

/// The example state of the coordinate of a state holding the four E-slice edges has its
/// E-slice edges where the state has them.
#[verifier::rlimit(40)]
proof fn lemma_sep_example_of_project(m: CubeModel)
    requires
        m.edges.len() == 12,
        holds_group(edge_indices(m.edges), e_slice_edges()),
    ensures
        sep_example(sep_project(m)).edges.map_values(|e: Edge| in_e_slice(e)) == m.edges.map_values(|e: Edge| in_e_slice(e)),
        sep_project(m) < 495,
{
    let h = |e: Edge| in_e_slice(e);
    lemma_edge_counts();
    assert(swaps_in_range(e_ud_swaps(), 12));
    let fm = m.edges.map_values(h);
    lemma_sep_flags(m.edges);
    lemma_swaps_keep_group(edge_indices(m.edges), e_ud_swaps(), e_slice_edges());
    lemma_swaps_map(edge_indices(m.edges), e_ud_swaps(), |x: usize| e_slice_edges().contains(x));
    let big_f = swaps_applied(fm, e_ud_swaps());
    lemma_swaps_map(m.edges, e_ud_swaps(), h);
    lemma_swaps_map(m.edges, e_ud_swaps(), |x: Edge| edge_index(x) as usize);
    lemma_sep_flags(swaps_applied(m.edges, e_ud_swaps()));
    assert(count_true(big_f) == 4);
    lemma_sep_project_flags(m);
    let v = sep_project(m);
    lemma_dist_coord_bound(big_f);
    lemma_dist_coord_round_trip(big_f);
    lemma_merge_facts(v);
    let merged = merge_by(dist_decode(v, 12, 4), e_slice_edges(), ud_edges());
    let edges = merged.map_values(|i: usize| edge_at(i as nat));
    assert(edges.map_values(h) =~= dist_decode(v, 12, 4)) by {
        assert forall|j: int| 0 <= j < 12 implies #[trigger] edges.map_values(h)[j] == dist_decode(v, 12, 4)[j] by {
            assert(merged[j] < 12);
            assert(layer_flags(merged, e_slice_edges())[j] == dist_decode(v, 12, 4)[j]);
        }
    }
    lemma_swaps_map(edges, e_ud_swaps(), h);
    lemma_e_ud_swaps_twice(fm);
}

#[verifier::rlimit(40)]
proof fn lemma_sep_example_holds(c: nat)
    requires
        c < 495,
    ensures
        sep_example(c).edges.len() == 12,
        holds_group(edge_indices(sep_example(c).edges), e_slice_edges()),
        sep_example(c).wf(),
{
    lemma_merge_facts(c);
    lemma_edge_counts();
    crate::coordutils::lemma_dist_decode_count(c, 12, 4);
    assert(swaps_in_range(e_ud_swaps(), 12));
    let merged = merge_by(dist_decode(c, 12, 4), e_slice_edges(), ud_edges());
    let edges = merged.map_values(|i: usize| edge_at(i as nat));
    assert(edge_indices(edges) =~= merged) by {
        assert forall|j: int| 0 <= j < 12 implies #[trigger] edge_indices(edges)[j] == merged[j] by {
            assert(merged[j] < 12);
        }
    }
    lemma_swaps_map(edges, e_ud_swaps(), |x: Edge| edge_index(x) as usize);
    lemma_swaps_keep_group(merged, e_ud_swaps(), e_slice_edges());
}

proof fn lemma_sep_turns_image(c: nat, t: Turn, k: nat)
    requires
        c < 495,
        is_layer_turn(t),
    ensures
        turns_image(ESliceEdgeSepCoord {  }, c, Seq::new(k, |_i: int| t)) == sep_project(effect_repeated(sep_example(c), layer_effect(t), k)),
    decreases k,
{
    if k == 0 {
        lemma_sep_round_trip(c);
    } else {
        lemma_sep_turns_image(c, t, (k - 1) as nat);
        assert(Seq::new(k, |_i: int| t).drop_last() =~= Seq::new((k - 1) as nat, |_i: int| t));
        let e = layer_effect(t);
        let big_m = effect_repeated(sep_example(c), e, (k - 1) as nat);
        lemma_sep_example_holds(c);
        lemma_repeated_holds_group(sep_example(c), t, (k - 1) as nat);
        lemma_sep_example_of_project(big_m);
        let v = sep_project(big_m);
        lemma_sep_example_holds(v);
        lemma_repeated_edge_flags(sep_example(v), big_m, t, 1);
        reveal_with_fuel(effect_repeated, 2);
        assert(effect_repeated(sep_example(v), e, 1) == effect_applied(sep_example(v), e));
        assert(effect_repeated(big_m, e, 1) == effect_applied(big_m, e));
        lemma_sep_project_flags(effect_applied(sep_example(v), e));
        lemma_sep_project_flags(effect_applied(big_m, e));
    }
}

proof fn lemma_sep_power_undone(c: nat, t: Turn, k: nat)
    requires
        c < 495,
        is_layer_turn(t),
        1 <= k <= 3,
    ensures
        turn_word_image(ESliceEdgeSepCoord {  }, turn_word_image(ESliceEdgeSepCoord {  }, c, Turn((k * t.0) as u32)), Turn(((4 - k) as nat * t.0) as u32)) == c,
{
    let e = layer_effect(t);
    lemma_base_turns_of_power(t, k);
    lemma_base_turns_of_power(t, (4 - k) as nat);
    lemma_sep_turns_image(c, t, k);
    let mk = effect_repeated(sep_example(c), e, k);
    lemma_sep_example_holds(c);
    lemma_repeated_holds_group(sep_example(c), t, k);
    lemma_sep_example_of_project(mk);
    let v = sep_project(mk);
    lemma_sep_turns_image(v, t, (4 - k) as nat);
    lemma_sep_example_holds(v);
    lemma_repeated_edge_flags(sep_example(v), mk, t, (4 - k) as nat);
    lemma_repeated_add(sep_example(c), e, k, (4 - k) as nat);
    lemma_quarter_turn_four_times(sep_example(c), t);
    lemma_sep_project_flags(effect_repeated(sep_example(v), e, (4 - k) as nat));
    lemma_sep_project_flags(effect_repeated(mk, e, (4 - k) as nat));
    lemma_sep_round_trip(c);
}

proof fn lemma_sep_has_inverse_for(tables: &MoveTables, a: int, w: Turn, k: nat)
    requires
        tables.wf(),
        tables.size_spec() == 495,
        forall|c: nat, t: Turn| #[trigger] tables.image(c, t) == turn_word_image(ESliceEdgeSepCoord {  }, c, t),
        0 <= a < tables.turns_spec().len(),
        is_layer_turn(w),
        1 <= k <= 3,
        tables.turns_spec()[a] == Turn((k * w.0) as u32),
        tables.turns_spec().contains(Turn(((4 - k) as nat * w.0) as u32)),
    ensures
        has_inverse(tables, a),
{
    let u = Turn(((4 - k) as nat * w.0) as u32);
    let b = choose|b: int| 0 <= b < tables.turns_spec().len() && tables.turns_spec()[b] == u;
    assert forall|c: nat| c < tables.size_spec() implies #[trigger] tables.image(tables.image(c, tables.turns_spec()[a]), tables.turns_spec()[b]) == c by {
        lemma_sep_power_undone(c, w, k);
    }
    assert(undoes(tables, a, b));
}

/// The move tables of the E-slice edge separation coordinate under the outer-layer turns:
/// every turn of the tables is undone by another turn of the tables.
#[verifier::rlimit(60)]
pub proof fn lemma_sep_tables_inverse_closed(tables: &MoveTables)
    requires
        tables.wf(),
        tables.size_spec() == 495,
        forall|c: nat, t: Turn| #[trigger] tables.image(c, t) == turn_word_image(ESliceEdgeSepCoord {  }, c, t),
        forall|i: int| 0 <= i < 18 ==> tables.turns_spec().contains(#[trigger] outer_layer_turns()[i]),
        forall|a: int| 0 <= a < tables.turns_spec().len() ==> from_move_set(outer_layer_turns(), #[trigger] tables.turns_spec()[a]),
    ensures
        inverse_closed(tables),
{
    let outer = outer_layer_turns();
    assert forall|a: int| 0 <= a < tables.turns_spec().len() implies #[trigger] has_inverse(tables, a) by {
        let t = tables.turns_spec()[a];
        assert(from_move_set(outer, t));
        if outer.contains(t) {
            let i = choose|i: int| 0 <= i < outer.len() && outer[i] == t;
            lemma_outer_entry(i);
            let inv = 3 * (i / 3) + 2 - i % 3;
            assert(tables.turns_spec().contains(outer[inv]));
            lemma_sep_has_inverse_for(tables, a, base_outer_layer_turns()[i / 3], ((i % 3) + 1) as nat);
        } else {
            let (i, j) = choose|i: int, j: int| 0 <= i < outer.len() && 0 <= j < base_turns_of(outer[i]).len() && #[trigger] base_turns_of(outer[i])[j] == t;
            lemma_outer_entry(i);
            let w = base_outer_layer_turns()[i / 3];
            lemma_base_turns_of_power(w, ((i % 3) + 1) as nat);
            assert(t == w);
            assert(w == Turn((1 * w.0) as u32));
            lemma_outer_entry(3 * (i / 3));
            let inv = 3 * (i / 3) + 2;
            assert(tables.turns_spec().contains(outer[inv]));
            lemma_sep_has_inverse_for(tables, a, w, 1);
        }
    }
}

/// Each E-slice edge separation table maps distinct coordinates to distinct coordinates of the same
/// range; in its pruning table every coordinate at a positive distance has a turn to a
/// coordinate exactly one closer, and no turn changes the distance by more than one.
pub proof fn lemma_sep_tables_laws(tables: &MoveTables, pruning: &PruningTable, i: int, c1: nat, c2: nat)
    requires
        outer_tables_of(ESliceEdgeSepCoord {  }, tables),
        inverse_closed(tables) ==> pruning.steps_down(tables),
        inverse_closed(tables) ==> pruning.within_one(tables),
        0 <= i < tables.turns_spec().len(),
        c1 < tables.size_spec(),
        c2 < tables.size_spec(),
    ensures
        tables.image(c1, tables.turns_spec()[i]) < tables.size_spec(),
        tables.image(c1, tables.turns_spec()[i]) == tables.image(c2, tables.turns_spec()[i]) ==> c1 == c2,
        pruning.steps_down(tables),
        pruning.within_one(tables),
{
    lemma_sep_tables_inverse_closed(tables);
    lemma_closed_tables_laws(tables, pruning, i, c1, c2);
}

/// Each outer-layer turn's table entry is the coordinate found through the raw state: the
/// example state with the effects of all the turn's base turns applied, read back.
pub proof fn lemma_sep_turn_follows_raw_state(tables: &MoveTables, c: nat, i: int)
    requires
        forall|x: nat, t: Turn| #[trigger] tables.image(x, t) == turn_word_image(ESliceEdgeSepCoord {  }, x, t),
        c < 495,
        0 <= i < 18,
    ensures
        tables.image(c, outer_layer_turns()[i]) == sep_project(effects_applied(sep_example(c), base_turns_of(outer_layer_turns()[i]))),
{
    lemma_outer_entry(i);
    let w = base_outer_layer_turns()[i / 3];
    let k = ((i % 3) + 1) as nat;
    lemma_base_turns_of_power(w, k);
    lemma_sep_turns_image(c, w, k);
    lemma_repeat_is_repeated(sep_example(c), w, k);
}

} // verus!
