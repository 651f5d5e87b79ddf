//! The move tables of the orientation coordinates under the outer-layer turns: every turn is
//! undone by another, so each table is one-to-one and the pruning table descends one step at a
//! time.
use vstd::prelude::*;
use crate::coordinate::Coordinate;
use crate::coordutils::{flip_coord, lemma_flip_coord_bound, lemma_twist_coord_bound, pow3};
use crate::movetables::{
    MoveTables, turns_image, turn_word_image, inverse_closed, has_inverse, undoes, from_move_set, lemma_tables_injective,
};
use crate::pruningtables::PruningTable;
use crate::movetables::layer_turns_only;
use crate::orientation::{
    EOFBCoord, bad_count, eo_flips, eo_example, eo_project, lemma_eo_flips_of_project, lemma_eo_round_trip,
    lemma_flips_of_len, COUDCoord, twist_total, co_twists, co_example, co_project, lemma_co_twists_of_project,
    lemma_co_round_trip, lemma_twists_of_len,
};
use crate::rawcube::{
    CubeModel, Flip, Twist, flip_value, flipped, flip_of, twist_value, twist_of, twist_sum, swap_at, swaps_applied,
    swaps_in_range, flips_applied, twists_applied,
    effect_applied, effect_repeated, layer_effect, is_layer_turn, lemma_layer_effect_wf,
};
use crate::turndef::{Turn, base_turns_of, outer_layer_turns, base_outer_layer_turns, lemma_base_turns_of_power};
use crate::edge_perm::{
    ESliceEdgeSepCoord, sep_example, sep_project, e_slice_edges, e_ud_swaps, lemma_merge_facts,
    lemma_e_ud_swaps_twice, lemma_sep_round_trip, lemma_edge_counts, ud_edges,
};
use crate::coordinate::{edge_indices, edge_at};
use crate::layered::{layer_flags, holds_group, lemma_swaps_map, lemma_swaps_keep_group};
use crate::coordutils::{count_true, dist_coord, dist_decode, merge_by, lemma_dist_coord_round_trip, lemma_dist_coord_bound};
use crate::rawcube::{Edge, edge_index};
use crate::corner_perm::{CornerPermCoord, cp_example, cp_project, lemma_cp_round_trip, lemma_corner_counts};
use crate::coordinate::corner_indices;
use crate::coordutils::{count_greater, descending, perm_decode, perm_coord, lemma_perm_decode_of_coord_counts, lemma_count_greater_swaps, lemma_perm_decode_digits, strictly_descending};
use crate::rawcube::{Corner, corner_index, corner_at};
use crate::rawcube::effects_applied;
use crate::turnlaws::{
    lemma_repeat_is_repeated,
    flips_closed, lemma_flips_closed, twists_closed, lemma_twists_closed, lemma_repeated_add,
    lemma_quarter_turn_four_times,
};

verus! {

proof fn lemma_bad_count_update(s: Seq<Flip>, p: int, v: Flip)
    requires
        0 <= p < s.len(),
    ensures
        bad_count(s.update(p, v)) + flip_value(s[p]) == bad_count(s) + flip_value(v),
    decreases s.len(),
{
    let u = s.update(p, v);
    if p == s.len() - 1 {
        assert(u.drop_last() =~= s.drop_last());
    } else {
        lemma_bad_count_update(s.drop_last(), p, v);
        assert(u.drop_last() =~= s.drop_last().update(p, v));
    }
}

proof fn lemma_bad_count_swaps(s: Seq<Flip>, sw: Seq<(int, int)>)
    requires
        swaps_in_range(sw, s.len()),
    ensures
        bad_count(swaps_applied(s, sw)) == bad_count(s),
        swaps_applied(s, sw).len() == s.len(),
    decreases sw.len(),
{
    crate::rawcube::lemma_swaps_len(s, sw);
    if sw.len() > 0 {
        assert(swaps_in_range(sw.drop_last(), s.len()));
        lemma_bad_count_swaps(s, sw.drop_last());
        let t = swaps_applied(s, sw.drop_last());
        let (a, b) = sw.last();
        assert(sw[sw.len() - 1] == sw.last());
        let u = t.update(a, t[b]);
        lemma_bad_count_update(t, a, t[b]);
        lemma_bad_count_update(u, b, t[a]);
        assert(u[b] == t[b]);
    }
}

/// Each edge of a layer turn's flip list changes the number of bad edges by one.
#[verifier::rlimit(50)]
proof fn lemma_effect_keeps_parity(m: CubeModel, t: Turn)
    requires
        m.flips.len() == 12,
        bad_count(m.flips) % 2 == 0,
        is_layer_turn(t),
    ensures
        effect_applied(m, layer_effect(t)).flips.len() == 12,
        bad_count(effect_applied(m, layer_effect(t)).flips) % 2 == 0,
{
    let e = layer_effect(t);
    lemma_layer_effect_wf(t);
    lemma_bad_count_swaps(m.flips, e.edge_swaps);
    let s = swaps_applied(m.flips, e.edge_swaps);
    lemma_flips_closed(s, e.edge_flips);
    crate::rawcube::lemma_flips_len(s, e.edge_flips);
    if e.edge_flips.len() == 4 {
        let fl = e.edge_flips;
        let t0 = s.update(fl[0], flipped(s[fl[0]]));
        let t1 = t0.update(fl[1], flipped(t0[fl[1]]));
        let t2 = t1.update(fl[2], flipped(t1[fl[2]]));
        let t3 = t2.update(fl[3], flipped(t2[fl[3]]));
        lemma_bad_count_update(s, fl[0], flipped(s[fl[0]]));
        lemma_bad_count_update(t0, fl[1], flipped(t0[fl[1]]));
        lemma_bad_count_update(t1, fl[2], flipped(t1[fl[2]]));
        lemma_bad_count_update(t2, fl[3], flipped(t2[fl[3]]));
        assert(flips_closed(s, fl) == t3);
    }
}

proof fn lemma_repeated_parity(m: CubeModel, t: Turn, k: nat)
    requires
        m.flips.len() == 12,
        bad_count(m.flips) % 2 == 0,
        is_layer_turn(t),
    ensures
        effect_repeated(m, layer_effect(t), k).flips.len() == 12,
        bad_count(effect_repeated(m, layer_effect(t), k).flips) % 2 == 0,
    decreases k,
{
    if k > 0 {
        lemma_repeated_parity(m, t, (k - 1) as nat);
        lemma_effect_keeps_parity(effect_repeated(m, layer_effect(t), (k - 1) as nat), t);
    }
}

proof fn lemma_repeated_flips_congruent(x: CubeModel, y: CubeModel, t: Turn, k: nat)
    requires
        x.flips == y.flips,
    ensures
        effect_repeated(x, layer_effect(t), k).flips == effect_repeated(y, layer_effect(t), k).flips,
    decreases k,
{
    if k > 0 {
        lemma_repeated_flips_congruent(x, y, t, (k - 1) as nat);
    }
}

proof fn lemma_eo_example_even(c: nat)
    ensures
        eo_flips(c).len() == 12,
        bad_count(eo_flips(c)) % 2 == 0,
{
    lemma_flips_of_len(c, 11);
    let f = crate::coordutils::flips_of(c, 11);
    assert(eo_flips(c).drop_last() =~= f);
}

/// The coordinate reached by k quarter turns of one layer, through the move tables' images,
/// is the coordinate of the example state turned k times.
proof fn lemma_eo_turns_image(c: nat, t: Turn, k: nat)
    requires
        c < 2048,
        is_layer_turn(t),
    ensures
        turns_image(EOFBCoord {  }, c, Seq::new(k, |_i: int| t)) == eo_project(effect_repeated(eo_example(c), layer_effect(t), k)),
    decreases k,
{
    let eo = EOFBCoord {  };
    if k == 0 {
        lemma_eo_round_trip(c);
    } else {
        lemma_eo_turns_image(c, t, (k - 1) as nat);
        assert(Seq::new(k, |_i: int| t).drop_last() =~= Seq::new((k - 1) as nat, |_i: int| t));
        let big_m = effect_repeated(eo_example(c), layer_effect(t), (k - 1) as nat);
        lemma_eo_example_even(c);
        lemma_repeated_parity(eo_example(c), t, (k - 1) as nat);
        lemma_eo_flips_of_project(big_m);
        let v = eo_project(big_m);
        assert(eo_example(v).flips == big_m.flips);
    }
}

/// Turn k * w followed by turn (4 - k) * w, through the tables' images, returns every edge
/// orientation coordinate to itself.
proof fn lemma_eo_power_undone(c: nat, t: Turn, k: nat)
    requires
        c < 2048,
        is_layer_turn(t),
        1 <= k <= 3,
    ensures
        turn_word_image(EOFBCoord {  }, turn_word_image(EOFBCoord {  }, c, Turn((k * t.0) as u32)), Turn(((4 - k) as nat * t.0) as u32)) == c,
{
    let eo = EOFBCoord {  };
    let e = layer_effect(t);
    lemma_base_turns_of_power(t, k);
    lemma_base_turns_of_power(t, (4 - k) as nat);
    lemma_eo_turns_image(c, t, k);
    let mk = effect_repeated(eo_example(c), e, k);
    let v = eo_project(mk);
    lemma_flip_coord_bound(mk.flips.take(11));
    crate::mathutils::lemma_pow2_monotone(11, 11);
    assert(crate::mathutils::pow2(11) == 2048) by {
        reveal_with_fuel(crate::mathutils::pow2, 12);
    }
    lemma_eo_example_even(c);
    lemma_repeated_parity(eo_example(c), t, k);
    assert(mk.flips.take(11).len() == 11);
    lemma_eo_turns_image(v, t, (4 - k) as nat);
    lemma_eo_flips_of_project(mk);
    assert(eo_example(v).flips == mk.flips);
    lemma_repeated_flips_congruent(eo_example(v), mk, t, (4 - k) as nat);
    lemma_repeated_add(eo_example(c), e, k, (4 - k) as nat);
    assert(eo_example(c).wf());
    lemma_quarter_turn_four_times(eo_example(c), t);
    lemma_eo_round_trip(c);
}

/// Entry i of the outer-layer turns is k = i % 3 + 1 quarter turns of layer i / 3, and entry
/// 3 * (i / 3) + 2 - i % 3 is 4 - k quarter turns of the same layer.
pub proof fn lemma_outer_entry(i: int)
    requires
        0 <= i < 18,
    ensures
        ({
            let w = base_outer_layer_turns()[i / 3];
            let k = ((i % 3) + 1) as nat;
            &&& is_layer_turn(w)
            &&& outer_layer_turns()[i] == Turn((k * w.0) as u32)
            &&& 0 <= 3 * (i / 3) + 2 - i % 3 < 18
            &&& outer_layer_turns()[3 * (i / 3) + 2 - i % 3] == Turn(((4 - k) as nat * w.0) as u32)
        }),
{
    let w = base_outer_layer_turns()[i / 3];
    let k = ((i % 3) + 1) as nat;
    let inv = 3 * (i / 3) + 2 - i % 3;
    assert(inv / 3 == i / 3 && inv % 3 == 2 - i % 3);
    assert(w.0 * k == k * w.0) by (nonlinear_arith);
    let k2 = (4 - k) as nat;
    assert(w.0 * ((inv % 3) + 1) == k2 * w.0) by (nonlinear_arith)
        requires
            (inv % 3) + 1 == k2,
    ;
}

proof fn lemma_has_inverse_for(tables: &MoveTables, a: int, w: Turn, k: nat)
    requires
        tables.wf(),
        tables.size_spec() == 2048,
        forall|c: nat, t: Turn| #[trigger] tables.image(c, t) == turn_word_image(EOFBCoord {  }, c, t),
        0 <= a < tables.turns_spec().len(),
        is_layer_turn(w),
        1 <= k <= 3,
        tables.turns_spec()[a] == Turn((k * w.0) as u32),
        tables.turns_spec().contains(Turn(((4 - k) as nat * w.0) as u32)),
    ensures
        has_inverse(tables, a),
{
    let u = Turn(((4 - k) as nat * w.0) as u32);
    let b = choose|b: int| 0 <= b < tables.turns_spec().len() && tables.turns_spec()[b] == u;
    assert forall|c: nat| c < tables.size_spec() implies #[trigger] tables.image(tables.image(c, tables.turns_spec()[a]), tables.turns_spec()[b]) == c by {
        lemma_eo_power_undone(c, w, k);
    }
    assert(undoes(tables, a, b));
}

/// The move tables of the edge orientation coordinate under the outer-layer turns: every turn
/// of the tables is undone by another turn of the tables.
pub proof fn lemma_eo_tables_inverse_closed(tables: &MoveTables)
    requires
        tables.wf(),
        tables.size_spec() == 2048,
        forall|c: nat, t: Turn| #[trigger] tables.image(c, t) == turn_word_image(EOFBCoord {  }, c, t),
        forall|i: int| 0 <= i < 18 ==> tables.turns_spec().contains(#[trigger] outer_layer_turns()[i]),
        forall|a: int| 0 <= a < tables.turns_spec().len() ==> from_move_set(outer_layer_turns(), #[trigger] tables.turns_spec()[a]),
    ensures
        inverse_closed(tables),
{
    let outer = outer_layer_turns();
    assert forall|a: int| 0 <= a < tables.turns_spec().len() implies #[trigger] has_inverse(tables, a) by {
        let t = tables.turns_spec()[a];
        assert(from_move_set(outer, t));
        if outer.contains(t) {
            let i = choose|i: int| 0 <= i < outer.len() && outer[i] == t;
            lemma_outer_entry(i);
            let inv = 3 * (i / 3) + 2 - i % 3;
            assert(tables.turns_spec().contains(outer[inv]));
            lemma_has_inverse_for(tables, a, base_outer_layer_turns()[i / 3], ((i % 3) + 1) as nat);
        } else {
            let (i, j) = choose|i: int, j: int| 0 <= i < outer.len() && 0 <= j < base_turns_of(outer[i]).len() && #[trigger] base_turns_of(outer[i])[j] == t;
            lemma_outer_entry(i);
            let w = base_outer_layer_turns()[i / 3];
            lemma_base_turns_of_power(w, ((i % 3) + 1) as nat);
            assert(t == w);
            assert(w == Turn((1 * w.0) as u32));
            lemma_outer_entry(3 * (i / 3));
            let inv = 3 * (i / 3) + 2;
            assert(tables.turns_spec().contains(outer[inv]));
            lemma_has_inverse_for(tables, a, w, 1);
        }
    }
}

// ----- corner orientation -----

proof fn lemma_twist_total_update(s: Seq<Twist>, p: int, v: Twist)
    requires
        0 <= p < s.len(),
    ensures
        twist_total(s.update(p, v)) + twist_value(s[p]) == twist_total(s) + twist_value(v),
    decreases s.len(),
{
    let u = s.update(p, v);
    if p == s.len() - 1 {
        assert(u.drop_last() =~= s.drop_last());
    } else {
        lemma_twist_total_update(s.drop_last(), p, v);
        assert(u.drop_last() =~= s.drop_last().update(p, v));
    }
}

proof fn lemma_twist_total_swaps(s: Seq<Twist>, sw: Seq<(int, int)>)
    requires
        swaps_in_range(sw, s.len()),
    ensures
        twist_total(swaps_applied(s, sw)) == twist_total(s),
        swaps_applied(s, sw).len() == s.len(),
    decreases sw.len(),
{
    crate::rawcube::lemma_swaps_len(s, sw);
    if sw.len() > 0 {
        assert(swaps_in_range(sw.drop_last(), s.len()));
        lemma_twist_total_swaps(s, sw.drop_last());
        let t = swaps_applied(s, sw.drop_last());
        let (a, b) = sw.last();
        assert(sw[sw.len() - 1] == sw.last());
        let u = t.update(a, t[b]);
        lemma_twist_total_update(t, a, t[b]);
        lemma_twist_total_update(u, b, t[a]);
        assert(u[b] == t[b]);
    }
}

proof fn lemma_twist_sum_value(a: Twist, b: Twist)
    ensures
        twist_value(twist_sum(a, b)) == (twist_value(a) + twist_value(b)) % 3,
{
}

proof fn lemma_layer_twist_amounts(t: Turn)
    requires
        is_layer_turn(t),
    ensures
        layer_effect(t).corner_twists.len() == 0 || (layer_effect(t).corner_twists.len() == 4 && ({
            let tw = layer_effect(t).corner_twists;
            twist_value(tw[0].1) + twist_value(tw[1].1) + twist_value(tw[2].1) + twist_value(tw[3].1) == 6
        })),
{
}

/// The twists a layer turn adds sum to a multiple of 3.
#[verifier::rlimit(50)]
proof fn lemma_effect_keeps_twist_total(m: CubeModel, t: Turn)
    requires
        m.twists.len() == 8,
        twist_total(m.twists) % 3 == 0,
        is_layer_turn(t),
    ensures
        effect_applied(m, layer_effect(t)).twists.len() == 8,
        twist_total(effect_applied(m, layer_effect(t)).twists) % 3 == 0,
{
    let e = layer_effect(t);
    lemma_layer_effect_wf(t);
    lemma_layer_twist_amounts(t);
    lemma_twist_total_swaps(m.twists, e.corner_swaps);
    let s = swaps_applied(m.twists, e.corner_swaps);
    lemma_twists_closed(s, e.corner_twists);
    crate::rawcube::lemma_twists_len(s, e.corner_twists);
    if e.corner_twists.len() == 4 {
        let tw = e.corner_twists;
        let t0 = s.update(tw[0].0, twist_sum(s[tw[0].0], tw[0].1));
        let t1 = t0.update(tw[1].0, twist_sum(t0[tw[1].0], tw[1].1));
        let t2 = t1.update(tw[2].0, twist_sum(t1[tw[2].0], tw[2].1));
        let t3 = t2.update(tw[3].0, twist_sum(t2[tw[3].0], tw[3].1));
        lemma_twist_total_update(s, tw[0].0, twist_sum(s[tw[0].0], tw[0].1));
        lemma_twist_total_update(t0, tw[1].0, twist_sum(t0[tw[1].0], tw[1].1));
        lemma_twist_total_update(t1, tw[2].0, twist_sum(t1[tw[2].0], tw[2].1));
        lemma_twist_total_update(t2, tw[3].0, twist_sum(t2[tw[3].0], tw[3].1));
        lemma_twist_sum_value(s[tw[0].0], tw[0].1);
        lemma_twist_sum_value(t0[tw[1].0], tw[1].1);
        lemma_twist_sum_value(t1[tw[2].0], tw[2].1);
        lemma_twist_sum_value(t2[tw[3].0], tw[3].1);
        assert(twists_closed(s, tw) == t3);
    }
}

proof fn lemma_repeated_twist_total(m: CubeModel, t: Turn, k: nat)
    requires
        m.twists.len() == 8,
        twist_total(m.twists) % 3 == 0,
        is_layer_turn(t),
    ensures
        effect_repeated(m, layer_effect(t), k).twists.len() == 8,
        twist_total(effect_repeated(m, layer_effect(t), k).twists) % 3 == 0,
    decreases k,
{
    if k > 0 {
        lemma_repeated_twist_total(m, t, (k - 1) as nat);
        lemma_effect_keeps_twist_total(effect_repeated(m, layer_effect(t), (k - 1) as nat), t);
    }
}

proof fn lemma_repeated_twists_congruent(x: CubeModel, y: CubeModel, t: Turn, k: nat)
    requires
        x.twists == y.twists,
    ensures
        effect_repeated(x, layer_effect(t), k).twists == effect_repeated(y, layer_effect(t), k).twists,
    decreases k,
{
    if k > 0 {
        lemma_repeated_twists_congruent(x, y, t, (k - 1) as nat);
    }
}

proof fn lemma_co_example_total(c: nat)
    ensures
        co_twists(c).len() == 8,
        twist_total(co_twists(c)) % 3 == 0,
{
    lemma_twists_of_len(c, 7);
    let f = crate::coordutils::twists_of(c, 7);
    assert(co_twists(c).drop_last() =~= f);
}

proof fn lemma_co_turns_image(c: nat, t: Turn, k: nat)
    requires
        c < 2187,
        is_layer_turn(t),
    ensures
        turns_image(COUDCoord {  }, c, Seq::new(k, |_i: int| t)) == co_project(effect_repeated(co_example(c), layer_effect(t), k)),
    decreases k,
{
    if k == 0 {
        lemma_co_round_trip(c);
    } else {
        lemma_co_turns_image(c, t, (k - 1) as nat);
        assert(Seq::new(k, |_i: int| t).drop_last() =~= Seq::new((k - 1) as nat, |_i: int| t));
        let big_m = effect_repeated(co_example(c), layer_effect(t), (k - 1) as nat);
        lemma_co_example_total(c);
        lemma_repeated_twist_total(co_example(c), t, (k - 1) as nat);
        lemma_co_twists_of_project(big_m);
        let v = co_project(big_m);
        assert(co_example(v).twists == big_m.twists);
    }
}

proof fn lemma_co_power_undone(c: nat, t: Turn, k: nat)
    requires
        c < 2187,
        is_layer_turn(t),
        1 <= k <= 3,
    ensures
        turn_word_image(COUDCoord {  }, turn_word_image(COUDCoord {  }, c, Turn((k * t.0) as u32)), Turn(((4 - k) as nat * t.0) as u32)) == c,
{
    let e = layer_effect(t);
    lemma_base_turns_of_power(t, k);
    lemma_base_turns_of_power(t, (4 - k) as nat);
    lemma_co_turns_image(c, t, k);
    let mk = effect_repeated(co_example(c), e, k);
    let v = co_project(mk);
    lemma_co_example_total(c);
    lemma_repeated_twist_total(co_example(c), t, k);
    lemma_twist_coord_bound(mk.twists.take(7));
    assert(pow3(7) == 2187) by {
        reveal_with_fuel(pow3, 8);
    }
    assert(mk.twists.take(7).len() == 7);
    lemma_co_turns_image(v, t, (4 - k) as nat);
    lemma_co_twists_of_project(mk);
    assert(co_example(v).twists == mk.twists);
    lemma_repeated_twists_congruent(co_example(v), mk, t, (4 - k) as nat);
    lemma_repeated_add(co_example(c), e, k, (4 - k) as nat);
    assert(co_example(c).wf());
    lemma_quarter_turn_four_times(co_example(c), t);
    lemma_co_round_trip(c);
}

proof fn lemma_co_has_inverse_for(tables: &MoveTables, a: int, w: Turn, k: nat)
    requires
        tables.wf(),
        tables.size_spec() == 2187,
        forall|c: nat, t: Turn| #[trigger] tables.image(c, t) == turn_word_image(COUDCoord {  }, c, t),
        0 <= a < tables.turns_spec().len(),
        is_layer_turn(w),
        1 <= k <= 3,
        tables.turns_spec()[a] == Turn((k * w.0) as u32),
        tables.turns_spec().contains(Turn(((4 - k) as nat * w.0) as u32)),
    ensures
        has_inverse(tables, a),
{
    let u = Turn(((4 - k) as nat * w.0) as u32);
    let b = choose|b: int| 0 <= b < tables.turns_spec().len() && tables.turns_spec()[b] == u;
    assert forall|c: nat| c < tables.size_spec() implies #[trigger] tables.image(tables.image(c, tables.turns_spec()[a]), tables.turns_spec()[b]) == c by {
        lemma_co_power_undone(c, w, k);
    }
    assert(undoes(tables, a, b));
}

/// The move tables of the corner orientation coordinate under the outer-layer turns: every
/// turn of the tables is undone by another turn of the tables.
pub proof fn lemma_co_tables_inverse_closed(tables: &MoveTables)
    requires
        tables.wf(),
        tables.size_spec() == 2187,
        forall|c: nat, t: Turn| #[trigger] tables.image(c, t) == turn_word_image(COUDCoord {  }, c, t),
        forall|i: int| 0 <= i < 18 ==> tables.turns_spec().contains(#[trigger] outer_layer_turns()[i]),
        forall|a: int| 0 <= a < tables.turns_spec().len() ==> from_move_set(outer_layer_turns(), #[trigger] tables.turns_spec()[a]),
    ensures
        inverse_closed(tables),
{
    let outer = outer_layer_turns();
    assert forall|a: int| 0 <= a < tables.turns_spec().len() implies #[trigger] has_inverse(tables, a) by {
        let t = tables.turns_spec()[a];
        assert(from_move_set(outer, t));
        if outer.contains(t) {
            let i = choose|i: int| 0 <= i < outer.len() && outer[i] == t;
            lemma_outer_entry(i);
            let inv = 3 * (i / 3) + 2 - i % 3;
            assert(tables.turns_spec().contains(outer[inv]));
            lemma_co_has_inverse_for(tables, a, base_outer_layer_turns()[i / 3], ((i % 3) + 1) as nat);
        } else {
            let (i, j) = choose|i: int, j: int| 0 <= i < outer.len() && 0 <= j < base_turns_of(outer[i]).len() && #[trigger] base_turns_of(outer[i])[j] == t;
            lemma_outer_entry(i);
            let w = base_outer_layer_turns()[i / 3];
            lemma_base_turns_of_power(w, ((i % 3) + 1) as nat);
            assert(t == w);
            assert(w == Turn((1 * w.0) as u32));
            lemma_outer_entry(3 * (i / 3));
            let inv = 3 * (i / 3) + 2;
            assert(tables.turns_spec().contains(outer[inv]));
            lemma_co_has_inverse_for(tables, a, w, 1);
        }
    }
}

/// Tables of a coordinate under the outer-layer turns, as built from its move set.
pub open spec fn outer_tables_of<C: Coordinate>(coord_type: C, tables: &MoveTables) -> bool {
    &&& tables.wf()
    &&& tables.size_spec() == coord_type.size_spec()
    &&& forall|c: nat, t: Turn| #[trigger] tables.image(c, t) == turn_word_image(coord_type, c, t)
    &&& forall|i: int| 0 <= i < 18 ==> tables.turns_spec().contains(#[trigger] outer_layer_turns()[i])
    &&& forall|a: int| 0 <= a < tables.turns_spec().len() ==> from_move_set(outer_layer_turns(), #[trigger] tables.turns_spec()[a])
}

pub proof fn lemma_closed_tables_laws(tables: &MoveTables, pruning: &PruningTable, i: int, c1: nat, c2: nat)
    requires
        tables.wf(),
        inverse_closed(tables),
        inverse_closed(tables) ==> pruning.steps_down(tables),
        inverse_closed(tables) ==> pruning.within_one(tables),
        0 <= i < tables.turns_spec().len(),
        c1 < tables.size_spec(),
        c2 < tables.size_spec(),
    ensures
        tables.image(c1, tables.turns_spec()[i]) < tables.size_spec(),
        tables.image(c1, tables.turns_spec()[i]) == tables.image(c2, tables.turns_spec()[i]) ==> c1 == c2,
        pruning.steps_down(tables),
        pruning.within_one(tables),
{
    tables.lemma_image_in_range(c1, i);
    if tables.image(c1, tables.turns_spec()[i]) == tables.image(c2, tables.turns_spec()[i]) {
        lemma_tables_injective(tables, i, c1, c2);
    }
}

/// Each edge orientation table maps distinct coordinates to distinct coordinates of the same
/// range; in its pruning table every coordinate at a positive distance has a turn to a
/// coordinate exactly one closer, and no turn changes the distance by more than one.
pub proof fn lemma_eo_tables_laws(tables: &MoveTables, pruning: &PruningTable, i: int, c1: nat, c2: nat)
    requires
        outer_tables_of(EOFBCoord {  }, tables),
        inverse_closed(tables) ==> pruning.steps_down(tables),
        inverse_closed(tables) ==> pruning.within_one(tables),
        0 <= i < tables.turns_spec().len(),
        c1 < tables.size_spec(),
        c2 < tables.size_spec(),
    ensures
        tables.image(c1, tables.turns_spec()[i]) < tables.size_spec(),
        tables.image(c1, tables.turns_spec()[i]) == tables.image(c2, tables.turns_spec()[i]) ==> c1 == c2,
        pruning.steps_down(tables),
        pruning.within_one(tables),
{
    lemma_eo_tables_inverse_closed(tables);
    lemma_closed_tables_laws(tables, pruning, i, c1, c2);
}

/// Each corner orientation table maps distinct coordinates to distinct coordinates of the same
/// range; in its pruning table every coordinate at a positive distance has a turn to a
/// coordinate exactly one closer, and no turn changes the distance by more than one.
pub proof fn lemma_co_tables_laws(tables: &MoveTables, pruning: &PruningTable, i: int, c1: nat, c2: nat)
    requires
        outer_tables_of(COUDCoord {  }, tables),
        inverse_closed(tables) ==> pruning.steps_down(tables),
        inverse_closed(tables) ==> pruning.within_one(tables),
        0 <= i < tables.turns_spec().len(),
        c1 < tables.size_spec(),
        c2 < tables.size_spec(),
    ensures
        tables.image(c1, tables.turns_spec()[i]) < tables.size_spec(),
        tables.image(c1, tables.turns_spec()[i]) == tables.image(c2, tables.turns_spec()[i]) ==> c1 == c2,
        pruning.steps_down(tables),
        pruning.within_one(tables),
{
    lemma_co_tables_inverse_closed(tables);
    lemma_closed_tables_laws(tables, pruning, i, c1, c2);
}

/// Every base turn of every outer-layer turn is a single-layer quarter turn.
pub proof fn lemma_outer_turns_layer_only()
    ensures
        layer_turns_only(outer_layer_turns()),
{
    let outer = outer_layer_turns();
    assert forall|i: int, k: int| 0 <= i < outer.len() && 0 <= k < base_turns_of(outer[i]).len()
        implies is_layer_turn(#[trigger] base_turns_of(outer[i])[k]) by {
        lemma_outer_entry(i);
        lemma_base_turns_of_power(base_outer_layer_turns()[i / 3], ((i % 3) + 1) as nat);
    }
}

/// Each outer-layer turn's table entry is the coordinate found through the raw state: the
/// example state with the effects of all the turn's base turns applied, read back.
pub proof fn lemma_eo_turn_follows_raw_state(tables: &MoveTables, c: nat, i: int)
    requires
        forall|x: nat, t: Turn| #[trigger] tables.image(x, t) == turn_word_image(EOFBCoord {  }, x, t),
        c < 2048,
        0 <= i < 18,
    ensures
        tables.image(c, outer_layer_turns()[i]) == eo_project(effects_applied(eo_example(c), base_turns_of(outer_layer_turns()[i]))),
{
    lemma_outer_entry(i);
    let w = base_outer_layer_turns()[i / 3];
    let k = ((i % 3) + 1) as nat;
    lemma_base_turns_of_power(w, k);
    lemma_eo_turns_image(c, w, k);
    lemma_repeat_is_repeated(eo_example(c), w, k);
}

/// Each outer-layer turn's table entry is the coordinate found through the raw state: the
/// example state with the effects of all the turn's base turns applied, read back.
pub proof fn lemma_co_turn_follows_raw_state(tables: &MoveTables, c: nat, i: int)
    requires
        forall|x: nat, t: Turn| #[trigger] tables.image(x, t) == turn_word_image(COUDCoord {  }, x, t),
        c < 2187,
        0 <= i < 18,
    ensures
        tables.image(c, outer_layer_turns()[i]) == co_project(effects_applied(co_example(c), base_turns_of(outer_layer_turns()[i]))),
{
    lemma_outer_entry(i);
    let w = base_outer_layer_turns()[i / 3];
    let k = ((i % 3) + 1) as nat;
    lemma_base_turns_of_power(w, k);
    lemma_co_turns_image(c, w, k);
    lemma_repeat_is_repeated(co_example(c), w, k);
}

} // verus!
