//! Laws of the turn effects on raw states.
use vstd::prelude::*;
use crate::rawcube::{
    swaps_applied, swap_at, cycle_swaps, twists_applied, flips_applied, effect_applied,
    effect_repeated, effects_applied, layer_effect, is_layer_turn, CubeModel, Twist, Flip, twist_sum, flipped,
};
use crate::turndef::{Turn, base_turns_of, lemma_base_turns_of_power};

verus! {

pub open spec fn swaps_closed<S>(s: Seq<S>, sw: Seq<(int, int)>) -> Seq<S> {
    if sw.len() == 3 {
        swap_at(swap_at(swap_at(s, sw[0].0, sw[0].1), sw[1].0, sw[1].1), sw[2].0, sw[2].1)
    } else {
        s
    }
}

pub open spec fn twists_closed(s: Seq<Twist>, tw: Seq<(int, Twist)>) -> Seq<Twist> {
    if tw.len() == 4 {
        let t0 = s.update(tw[0].0, twist_sum(s[tw[0].0], tw[0].1));
        let t1 = t0.update(tw[1].0, twist_sum(t0[tw[1].0], tw[1].1));
        let t2 = t1.update(tw[2].0, twist_sum(t1[tw[2].0], tw[2].1));
        t2.update(tw[3].0, twist_sum(t2[tw[3].0], tw[3].1))
    } else {
        s
    }
}

pub open spec fn flips_closed(s: Seq<Flip>, fl: Seq<int>) -> Seq<Flip> {
    if fl.len() == 4 {
        let t0 = s.update(fl[0], flipped(s[fl[0]]));
        let t1 = t0.update(fl[1], flipped(t0[fl[1]]));
        let t2 = t1.update(fl[2], flipped(t1[fl[2]]));
        t2.update(fl[3], flipped(t2[fl[3]]))
    } else {
        s
    }
}

proof fn lemma_swaps_closed<S>(s: Seq<S>, sw: Seq<(int, int)>)
    requires
        sw.len() == 0 || sw.len() == 3,
    ensures
        swaps_applied(s, sw) == swaps_closed(s, sw),
{
    if sw.len() == 3 {
        assert(sw.drop_last().drop_last().drop_last() =~= Seq::<(int, int)>::empty());
        assert(sw.drop_last().drop_last().last() == sw[0]);
        assert(sw.drop_last().last() == sw[1]);
        reveal_with_fuel(swaps_applied, 4);
    }
}

pub proof fn lemma_twists_closed(s: Seq<Twist>, tw: Seq<(int, Twist)>)
    requires
        tw.len() == 0 || tw.len() == 4,
    ensures
        twists_applied(s, tw) == twists_closed(s, tw),
{
    if tw.len() == 4 {
        assert(tw.drop_last().drop_last().drop_last().drop_last() =~= Seq::<(int, Twist)>::empty());
        assert(tw.drop_last().drop_last().drop_last().last() == tw[0]);
        assert(tw.drop_last().drop_last().last() == tw[1]);
        assert(tw.drop_last().last() == tw[2]);
        reveal_with_fuel(twists_applied, 5);
    }
}

pub proof fn lemma_flips_closed(s: Seq<Flip>, fl: Seq<int>)
    requires
        fl.len() == 0 || fl.len() == 4,
    ensures
        flips_applied(s, fl) == flips_closed(s, fl),
{
    if fl.len() == 4 {
        assert(fl.drop_last().drop_last().drop_last().drop_last() =~= Seq::<int>::empty());
        assert(fl.drop_last().drop_last().drop_last().last() == fl[0]);
        assert(fl.drop_last().drop_last().last() == fl[1]);
        assert(fl.drop_last().last() == fl[2]);
        reveal_with_fuel(flips_applied, 5);
    }
}

proof fn lemma_step_closed(m: CubeModel, t: Turn)
    requires
        is_layer_turn(t),
    ensures
        ({
            let e = layer_effect(t);
            effect_applied(m, e) == (CubeModel {
                corners: swaps_closed(m.corners, e.corner_swaps),
                twists: twists_closed(swaps_closed(m.twists, e.corner_swaps), e.corner_twists),
                edges: swaps_closed(m.edges, e.edge_swaps),
                flips: flips_closed(swaps_closed(m.flips, e.edge_swaps), e.edge_flips),
                centres: swaps_closed(m.centres, e.centre_swaps),
            })
        }),
{
    let e = layer_effect(t);
    lemma_swaps_closed(m.corners, e.corner_swaps);
    lemma_swaps_closed(m.twists, e.corner_swaps);
    lemma_twists_closed(swaps_applied(m.twists, e.corner_swaps), e.corner_twists);
    lemma_swaps_closed(m.edges, e.edge_swaps);
    lemma_swaps_closed(m.flips, e.edge_swaps);
    lemma_flips_closed(swaps_applied(m.flips, e.edge_swaps), e.edge_flips);
    lemma_swaps_closed(m.centres, e.centre_swaps);
}

#[verifier::rlimit(100)]
proof fn lemma_swaps_closed_four<S>(s: Seq<S>, sw: Seq<(int, int)>)
    requires
        sw.len() == 0 || (sw.len() == 3 && sw == cycle_swaps(sw[0].0 as nat, sw[1].0 as nat, sw[2].0 as nat, sw[2].1 as nat)),
        sw.len() == 3 ==> ({
            let (a, b, c, d) = (sw[0].0, sw[1].0, sw[2].0, sw[2].1);
            0 <= a < s.len() && 0 <= b < s.len() && 0 <= c < s.len() && 0 <= d < s.len()
                && a != b && a != c && a != d && b != c && b != d && c != d
        }),
    ensures
        swaps_closed(swaps_closed(swaps_closed(swaps_closed(s, sw), sw), sw), sw) == s,
{
    if sw.len() == 3 {
        let s1 = swaps_closed(s, sw);
        let s2 = swaps_closed(s1, sw);
        let s3 = swaps_closed(s2, sw);
        let s4 = swaps_closed(s3, sw);
        assert(s4 =~= s);
    }
}


/// A step that moves the entry at src[i] to position i and adds d[i] to it.
pub open spec fn twist_step(x: Seq<Twist>, src: Seq<int>, d: Seq<Twist>) -> Seq<Twist> {
    Seq::new(8, |i: int| twist_sum(x[src[i]], d[i]))
}

/// A step that moves the entry at src[i] to position i and flips it where f[i].
pub open spec fn flip_step(x: Seq<Flip>, src: Seq<int>, f: Seq<bool>) -> Seq<Flip> {
    Seq::new(12, |i: int| if f[i] { flipped(x[src[i]]) } else { x[src[i]] })
}

proof fn lemma_twists_four_right(x: Seq<Twist>)
    requires
        x.len() == 8,
    ensures
        ({
            let e = layer_effect(Turn(0x100));
            let x1 = twists_closed(swaps_closed(x, e.corner_swaps), e.corner_twists);
            let x2 = twists_closed(swaps_closed(x1, e.corner_swaps), e.corner_twists);
            let x3 = twists_closed(swaps_closed(x2, e.corner_swaps), e.corner_twists);
            twists_closed(swaps_closed(x3, e.corner_swaps), e.corner_twists) == x
        }),
{
    let e = layer_effect(Turn(0x100));
    let src = seq![0int, 1, 6, 2, 4, 5, 7, 3];
    let d = seq![Twist::Zero, Twist::Zero, Twist::ACW, Twist::CW, Twist::Zero, Twist::Zero, Twist::CW, Twist::ACW];
    assert forall|y: Seq<Twist>| y.len() == 8 implies #[trigger] twists_closed(swaps_closed(y, e.corner_swaps), e.corner_twists) == twist_step(y, src, d) by {
        assert(twists_closed(swaps_closed(y, e.corner_swaps), e.corner_twists) =~= twist_step(y, src, d));
    }
    let x1 = twist_step(x, src, d);
    let x2 = twist_step(x1, src, d);
    let x3 = twist_step(x2, src, d);
    let x4 = twist_step(x3, src, d);
    assert(x4 =~= x);
}

proof fn lemma_twists_four_left(x: Seq<Twist>)
    requires
        x.len() == 8,
    ensures
        ({
            let e = layer_effect(Turn(0x1000));
            let x1 = twists_closed(swaps_closed(x, e.corner_swaps), e.corner_twists);
            let x2 = twists_closed(swaps_closed(x1, e.corner_swaps), e.corner_twists);
            let x3 = twists_closed(swaps_closed(x2, e.corner_swaps), e.corner_twists);
            twists_closed(swaps_closed(x3, e.corner_swaps), e.corner_twists) == x
        }),
{
    let e = layer_effect(Turn(0x1000));
    let src = seq![1int, 5, 2, 3, 0, 4, 6, 7];
    let d = seq![Twist::ACW, Twist::CW, Twist::Zero, Twist::Zero, Twist::CW, Twist::ACW, Twist::Zero, Twist::Zero];
    assert forall|y: Seq<Twist>| y.len() == 8 implies #[trigger] twists_closed(swaps_closed(y, e.corner_swaps), e.corner_twists) == twist_step(y, src, d) by {
        assert(twists_closed(swaps_closed(y, e.corner_swaps), e.corner_twists) =~= twist_step(y, src, d));
    }
    let x1 = twist_step(x, src, d);
    let x2 = twist_step(x1, src, d);
    let x3 = twist_step(x2, src, d);
    let x4 = twist_step(x3, src, d);
    assert(x4 =~= x);
}

proof fn lemma_twists_four_front(x: Seq<Twist>)
    requires
        x.len() == 8,
    ensures
        ({
            let e = layer_effect(Turn(0x100_0000));
            let x1 = twists_closed(swaps_closed(x, e.corner_swaps), e.corner_twists);
            let x2 = twists_closed(swaps_closed(x1, e.corner_swaps), e.corner_twists);
            let x3 = twists_closed(swaps_closed(x2, e.corner_swaps), e.corner_twists);
            twists_closed(swaps_closed(x3, e.corner_swaps), e.corner_twists) == x
        }),
{
    let e = layer_effect(Turn(0x100_0000));
    let src = seq![0int, 5, 1, 3, 4, 6, 2, 7];
    let d = seq![Twist::Zero, Twist::ACW, Twist::CW, Twist::Zero, Twist::Zero, Twist::CW, Twist::ACW, Twist::Zero];
    assert forall|y: Seq<Twist>| y.len() == 8 implies #[trigger] twists_closed(swaps_closed(y, e.corner_swaps), e.corner_twists) == twist_step(y, src, d) by {
        assert(twists_closed(swaps_closed(y, e.corner_swaps), e.corner_twists) =~= twist_step(y, src, d));
    }
    let x1 = twist_step(x, src, d);
    let x2 = twist_step(x1, src, d);
    let x3 = twist_step(x2, src, d);
    let x4 = twist_step(x3, src, d);
    assert(x4 =~= x);
}

proof fn lemma_twists_four_back(x: Seq<Twist>)
    requires
        x.len() == 8,
    ensures
        ({
            let e = layer_effect(Turn(0x1000_0000));
            let x1 = twists_closed(swaps_closed(x, e.corner_swaps), e.corner_twists);
            let x2 = twists_closed(swaps_closed(x1, e.corner_swaps), e.corner_twists);
            let x3 = twists_closed(swaps_closed(x2, e.corner_swaps), e.corner_twists);
            twists_closed(swaps_closed(x3, e.corner_swaps), e.corner_twists) == x
        }),
{
    let e = layer_effect(Turn(0x1000_0000));
    let src = seq![4int, 1, 2, 0, 7, 5, 6, 3];
    let d = seq![Twist::CW, Twist::Zero, Twist::Zero, Twist::ACW, Twist::ACW, Twist::Zero, Twist::Zero, Twist::CW];
    assert forall|y: Seq<Twist>| y.len() == 8 implies #[trigger] twists_closed(swaps_closed(y, e.corner_swaps), e.corner_twists) == twist_step(y, src, d) by {
        assert(twists_closed(swaps_closed(y, e.corner_swaps), e.corner_twists) =~= twist_step(y, src, d));
    }
    let x1 = twist_step(x, src, d);
    let x2 = twist_step(x1, src, d);
    let x3 = twist_step(x2, src, d);
    let x4 = twist_step(x3, src, d);
    assert(x4 =~= x);
}

proof fn lemma_flips_four_middle(x: Seq<Flip>)
    requires
        x.len() == 12,
    ensures
        ({
            let e = layer_effect(Turn(0x400));
            let x1 = flips_closed(swaps_closed(x, e.edge_swaps), e.edge_flips);
            let x2 = flips_closed(swaps_closed(x1, e.edge_swaps), e.edge_flips);
            let x3 = flips_closed(swaps_closed(x2, e.edge_swaps), e.edge_flips);
            flips_closed(swaps_closed(x3, e.edge_swaps), e.edge_flips) == x
        }),
{
    let e = layer_effect(Turn(0x400));
    let src = seq![2int, 1, 10, 3, 4, 5, 6, 7, 0, 9, 8, 11];
    let f = seq![true, false, true, false, false, false, false, false, true, false, true, false];
    assert forall|y: Seq<Flip>| y.len() == 12 implies #[trigger] flips_closed(swaps_closed(y, e.edge_swaps), e.edge_flips) == flip_step(y, src, f) by {
        assert(flips_closed(swaps_closed(y, e.edge_swaps), e.edge_flips) =~= flip_step(y, src, f));
    }
    let x1 = flip_step(x, src, f);
    let x2 = flip_step(x1, src, f);
    let x3 = flip_step(x2, src, f);
    let x4 = flip_step(x3, src, f);
    assert(x4 =~= x);
}

proof fn lemma_flips_four_equator(x: Seq<Flip>)
    requires
        x.len() == 12,
    ensures
        ({
            let e = layer_effect(Turn(0x4_0000));
            let x1 = flips_closed(swaps_closed(x, e.edge_swaps), e.edge_flips);
            let x2 = flips_closed(swaps_closed(x1, e.edge_swaps), e.edge_flips);
            let x3 = flips_closed(swaps_closed(x2, e.edge_swaps), e.edge_flips);
            flips_closed(swaps_closed(x3, e.edge_swaps), e.edge_flips) == x
        }),
{
    let e = layer_effect(Turn(0x4_0000));
    let src = seq![0int, 1, 2, 3, 5, 6, 7, 4, 8, 9, 10, 11];
    let f = seq![false, false, false, false, true, true, true, true, false, false, false, false];
    assert forall|y: Seq<Flip>| y.len() == 12 implies #[trigger] flips_closed(swaps_closed(y, e.edge_swaps), e.edge_flips) == flip_step(y, src, f) by {
        assert(flips_closed(swaps_closed(y, e.edge_swaps), e.edge_flips) =~= flip_step(y, src, f));
    }
    let x1 = flip_step(x, src, f);
    let x2 = flip_step(x1, src, f);
    let x3 = flip_step(x2, src, f);
    let x4 = flip_step(x3, src, f);
    assert(x4 =~= x);
}

proof fn lemma_flips_four_front(x: Seq<Flip>)
    requires
        x.len() == 12,
    ensures
        ({
            let e = layer_effect(Turn(0x100_0000));
            let x1 = flips_closed(swaps_closed(x, e.edge_swaps), e.edge_flips);
            let x2 = flips_closed(swaps_closed(x1, e.edge_swaps), e.edge_flips);
            let x3 = flips_closed(swaps_closed(x2, e.edge_swaps), e.edge_flips);
            flips_closed(swaps_closed(x3, e.edge_swaps), e.edge_flips) == x
        }),
{
    let e = layer_effect(Turn(0x100_0000));
    let src = seq![0int, 1, 5, 3, 4, 10, 2, 7, 8, 9, 6, 11];
    let f = seq![false, false, true, false, false, true, true, false, false, false, true, false];
    assert forall|y: Seq<Flip>| y.len() == 12 implies #[trigger] flips_closed(swaps_closed(y, e.edge_swaps), e.edge_flips) == flip_step(y, src, f) by {
        assert(flips_closed(swaps_closed(y, e.edge_swaps), e.edge_flips) =~= flip_step(y, src, f));
    }
    let x1 = flip_step(x, src, f);
    let x2 = flip_step(x1, src, f);
    let x3 = flip_step(x2, src, f);
    let x4 = flip_step(x3, src, f);
    assert(x4 =~= x);
}

proof fn lemma_flips_four_slice(x: Seq<Flip>)
    requires
        x.len() == 12,
    ensures
        ({
            let e = layer_effect(Turn(0x400_0000));
            let x1 = flips_closed(swaps_closed(x, e.edge_swaps), e.edge_flips);
            let x2 = flips_closed(swaps_closed(x1, e.edge_swaps), e.edge_flips);
            let x3 = flips_closed(swaps_closed(x2, e.edge_swaps), e.edge_flips);
            flips_closed(swaps_closed(x3, e.edge_swaps), e.edge_flips) == x
        }),
{
    let e = layer_effect(Turn(0x400_0000));
    let src = seq![0int, 9, 2, 1, 4, 5, 6, 7, 8, 11, 10, 3];
    let f = seq![false, true, false, true, false, false, false, false, false, true, false, true];
    assert forall|y: Seq<Flip>| y.len() == 12 implies #[trigger] flips_closed(swaps_closed(y, e.edge_swaps), e.edge_flips) == flip_step(y, src, f) by {
        assert(flips_closed(swaps_closed(y, e.edge_swaps), e.edge_flips) =~= flip_step(y, src, f));
    }
    let x1 = flip_step(x, src, f);
    let x2 = flip_step(x1, src, f);
    let x3 = flip_step(x2, src, f);
    let x4 = flip_step(x3, src, f);
    assert(x4 =~= x);
}

/// A quarter turn of any single layer, applied four times, leaves every raw state as it was.
pub proof fn lemma_quarter_turn_four_times(m: CubeModel, t: Turn)
    requires
        m.wf(),
        is_layer_turn(t),
    ensures
        effect_repeated(m, layer_effect(t), 4) == m,
{
    let e = layer_effect(t);
    reveal_with_fuel(effect_repeated, 5);
    let m1 = effect_applied(m, e);
    let m2 = effect_applied(m1, e);
    let m3 = effect_applied(m2, e);
    let m4 = effect_applied(m3, e);
    lemma_step_closed(m, t);
    lemma_step_closed(m1, t);
    lemma_step_closed(m2, t);
    lemma_step_closed(m3, t);
    assert(effect_repeated(m, e, 4) == m4);
    lemma_swaps_closed_four(m.corners, e.corner_swaps);
    lemma_swaps_closed_four(m.edges, e.edge_swaps);
    lemma_swaps_closed_four(m.centres, e.centre_swaps);
    if t.0 == 0x100 {
        lemma_twists_four_right(m.twists);
    } else if t.0 == 0x1000 {
        lemma_twists_four_left(m.twists);
    } else if t.0 == 0x100_0000 {
        lemma_twists_four_front(m.twists);
    } else if t.0 == 0x1000_0000 {
        lemma_twists_four_back(m.twists);
    } else {
        lemma_swaps_closed_four(m.twists, e.corner_swaps);
    }
    if t.0 == 0x400 {
        lemma_flips_four_middle(m.flips);
    } else if t.0 == 0x4_0000 {
        lemma_flips_four_equator(m.flips);
    } else if t.0 == 0x100_0000 {
        lemma_flips_four_front(m.flips);
    } else if t.0 == 0x400_0000 {
        lemma_flips_four_slice(m.flips);
    } else {
        lemma_swaps_closed_four(m.flips, e.edge_swaps);
    }
}

pub proof fn lemma_repeat_is_repeated(m: CubeModel, t: Turn, k: nat)
    ensures
        effects_applied(m, Seq::new(k, |_i: int| t)) == effect_repeated(m, layer_effect(t), k),
    decreases k,
{
    if k > 0 {
        lemma_repeat_is_repeated(m, t, (k - 1) as nat);
        assert(Seq::new(k, |_i: int| t).drop_last() =~= Seq::new((k - 1) as nat, |_i: int| t));
    }
}

pub proof fn lemma_repeated_add(m: CubeModel, e: crate::rawcube::EffectModel, a: nat, b: nat)
    ensures
        effect_repeated(effect_repeated(m, e, a), e, b) == effect_repeated(m, e, a + b),
    decreases b,
{
    if b > 0 {
        lemma_repeated_add(m, e, a, (b - 1) as nat);
    }
}

/// A half turn of any single layer, applied twice, leaves every raw state as it was.
pub proof fn lemma_half_turn_twice(m: CubeModel, t: Turn)
    requires
        m.wf(),
        is_layer_turn(t),
    ensures
        ({
            let half = base_turns_of(Turn((2 * t.0) as u32));
            effects_applied(effects_applied(m, half), half) == m
        }),
{
    lemma_base_turns_of_power(t, 2);
    let m2 = effects_applied(m, Seq::new(2, |_i: int| t));
    lemma_repeat_is_repeated(m, t, 2);
    lemma_repeat_is_repeated(m2, t, 2);
    lemma_repeated_add(m, layer_effect(t), 2, 2);
    lemma_quarter_turn_four_times(m, t);
}

/// A quarter turn of any single layer followed by its inverse leaves every raw state as it
/// was.
pub proof fn lemma_turn_then_inverse(m: CubeModel, t: Turn)
    requires
        m.wf(),
        is_layer_turn(t),
    ensures
        effects_applied(effects_applied(m, base_turns_of(t)), base_turns_of(Turn((3 * t.0) as u32))) == m,
{
    lemma_base_turns_of_power(t, 1);
    lemma_base_turns_of_power(t, 3);
    assert(Turn((1 * t.0) as u32) == t);
    let m1 = effects_applied(m, Seq::new(1, |_i: int| t));
    lemma_repeat_is_repeated(m, t, 1);
    lemma_repeat_is_repeated(m1, t, 3);
    lemma_repeated_add(m, layer_effect(t), 1, 3);
    lemma_quarter_turn_four_times(m, t);
}

} // verus!
