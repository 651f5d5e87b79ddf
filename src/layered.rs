//! Coordinates of a group of four pieces (a layer or a slice) among the pieces of one kind:
//! the combinadic coordinate of where the group's pieces are, times 24, plus the Lehmer code of
//! the group's pieces in the order they are found. Pieces are given by their indices.
use vstd::prelude::*;
use vstd::seq_lib::{to_multiset_build, to_multiset_update};
use crate::coordutils::{
    count_true, dist_coord, dist_decode, merge_by, perm_coord, perm_decode, perm_decode_from,
    descending, piece_distibution_to_coord, permutation_to_coord, coord_to_permutation,
    get_perm_for_distribution_coord, larger_before, lehmer_digit, lehmer_from, lemma_perm_round_trip,
    lemma_dist_round_trip,
};
use crate::mathutils::{binom, fact, lemma_binom_small};
use crate::rawcube::{swap_at, swaps_applied, swaps_in_range};

verus! {

pub open spec fn layer_flags(s: Seq<usize>, layer: Seq<usize>) -> Seq<bool> {
    s.map_values(|x: usize| layer.contains(x))
}

/// The pieces of the group, in the order of their positions.
pub open spec fn layer_pieces(s: Seq<usize>, layer: Seq<usize>) -> Seq<usize>
    decreases s.len(),
{
    if s.len() == 0 {
        Seq::empty()
    } else {
        let r = layer_pieces(s.drop_last(), layer);
        if layer.contains(s.last()) {
            r.push(s.last())
        } else {
            r
        }
    }
}

/// Whether exactly four positions hold pieces of the group.
pub open spec fn holds_group(s: Seq<usize>, layer: Seq<usize>) -> bool {
    count_true(layer_flags(s, layer)) == 4
}

pub open spec fn layered_coord(s: Seq<usize>, layer: Seq<usize>) -> nat {
    dist_coord(layer_flags(s, layer)) * 24 + perm_coord(layer_pieces(s, layer))
}

/// The arrangement with the given coordinate: the group's pieces permuted by the Lehmer code
/// c % 24 and spread by the combinadic coordinate c / 24 among the other pieces.
pub open spec fn layered_example(c: nat, on: Seq<usize>, off: Seq<usize>) -> Seq<usize> {
    merge_by(
        dist_decode(c / 24, (on.len() + off.len()) as nat, 4),
        perm_decode(c % 24, 4).map_values(|i: usize| on[i as int]),
        off,
    )
}

proof fn lemma_layer_pieces_len(s: Seq<usize>, layer: Seq<usize>)
    ensures
        layer_pieces(s, layer).len() == count_true(layer_flags(s, layer)),
    decreases s.len(),
{
    if s.len() > 0 {
        lemma_layer_pieces_len(s.drop_last(), layer);
        assert(layer_flags(s, layer).drop_last() =~= layer_flags(s.drop_last(), layer));
    }
}

proof fn lemma_count_true_multiset(f: Seq<bool>)
    ensures
        count_true(f) == f.to_multiset().count(true),
    decreases f.len(),
{
    broadcast use vstd::multiset::group_multiset_axioms;
    f.to_multiset_ensures();
    if f.len() == 0 {
        assert(!f.contains(true));
    } else {
        lemma_count_true_multiset(f.drop_last());
        assert(f.drop_last().push(f.last()) =~= f);
        to_multiset_build(f.drop_last(), f.last());
    }
}

proof fn lemma_count_true_swap(f: Seq<bool>, a: int, b: int)
    requires
        0 <= a < f.len(),
        0 <= b < f.len(),
    ensures
        count_true(swap_at(f, a, b)) == count_true(f),
{
    broadcast use vstd::multiset::group_multiset_axioms;
    lemma_count_true_multiset(f);
    lemma_count_true_multiset(swap_at(f, a, b));
    let g = f.update(a, f[b]);
    to_multiset_update(f, a, f[b]);
    to_multiset_update(g, b, f[a]);
    assert(g[b] == f[b]);
    f.to_multiset_ensures();
    g.to_multiset_ensures();
    assert(f.contains(f[a]));
    assert(g.contains(g[b]));
    assert(swap_at(f, a, b).to_multiset().count(true) == f.to_multiset().count(true));
}

/// Exchanges commute with reading every position through f.
pub proof fn lemma_swaps_map<A, B>(s: Seq<A>, sw: Seq<(int, int)>, f: spec_fn(A) -> B)
    requires
        swaps_in_range(sw, s.len()),
    ensures
        swaps_applied(s.map_values(f), sw) == swaps_applied(s, sw).map_values(f),
        swaps_applied(s, sw).len() == s.len(),
    decreases sw.len(),
{
    if sw.len() > 0 {
        assert(swaps_in_range(sw.drop_last(), s.len()));
        lemma_swaps_map(s, sw.drop_last(), f);
        let t = swaps_applied(s, sw.drop_last());
        let last = sw.last();
        assert(sw[sw.len() - 1] == last);
        assert(swap_at(t.map_values(f), last.0, last.1) =~= swap_at(t, last.0, last.1).map_values(f));
    }
}

/// Exchanging positions keeps the number of group pieces.
pub proof fn lemma_swaps_keep_group(s: Seq<usize>, sw: Seq<(int, int)>, layer: Seq<usize>)
    requires
        swaps_in_range(sw, s.len()),
    ensures
        count_true(layer_flags(swaps_applied(s, sw), layer)) == count_true(layer_flags(s, layer)),
        swaps_applied(s, sw).len() == s.len(),
    decreases sw.len(),
{
    lemma_swaps_map(s, sw, |x: usize| layer.contains(x));
    if sw.len() > 0 {
        assert(swaps_in_range(sw.drop_last(), s.len()));
        lemma_swaps_keep_group(s, sw.drop_last(), layer);
        let t = swaps_applied(s, sw.drop_last());
        let last = sw.last();
        assert(sw[sw.len() - 1] == last);
        assert(layer_flags(swap_at(t, last.0, last.1), layer) =~= swap_at(layer_flags(t, layer), last.0, last.1));
        lemma_count_true_swap(layer_flags(t, layer), last.0, last.1);
    }
}

proof fn lemma_perm_decode_from_range(c: nat, i: nat, avail: Seq<usize>, state: Seq<usize>, n: nat)
    requires
        avail.len() == i,
        i <= state.len(),
        forall|k: int| 0 <= k < avail.len() ==> #[trigger] avail[k] < n,
        forall|k: int| 0 <= k < state.len() ==> #[trigger] state[k] < n,
        c < fact(i),
    ensures
        perm_decode_from(c, i, avail, state).len() == state.len(),
        forall|k: int| 0 <= k < state.len() ==> #[trigger] perm_decode_from(c, i, avail, state)[k] < n,
    decreases i,
{
    if i > 0 {
        let f = fact((i - 1) as nat);
        crate::mathutils::lemma_fact_positive((i - 1) as nat);
        assert(fact(i) == i * f);
        assert(c / f < i) by (nonlinear_arith)
            requires
                c < i * f,
                f >= 1,
        ;
        let idx = (c / f) as int;
        assert(c % f < f) by (nonlinear_arith)
            requires
                f >= 1,
        ;
        let avail2 = avail.remove(idx);
        assert forall|k: int| 0 <= k < avail2.len() implies #[trigger] avail2[k] < n by {
            if k < idx {
                assert(avail2[k] == avail[k]);
            } else {
                assert(avail2[k] == avail[k + 1]);
            }
        }
        lemma_perm_decode_from_range(c % f, (i - 1) as nat, avail2, state.update(i - 1, avail[idx]), n);
    }
}

/// The values of a decoded permutation of 0..n lie in 0..n.
pub proof fn lemma_perm_decode_range(c: nat, n: nat)
    requires
        c < fact(n),
    ensures
        perm_decode(c, n).len() == n,
        forall|k: int| 0 <= k < n ==> #[trigger] perm_decode(c, n)[k] < n,
{
    lemma_perm_decode_from_range(c, n, descending(n), Seq::new(n, |k: int| 0usize), n);
}

/// Where the group's pieces come first among pieces of another kind, an arrangement built from
/// a distribution has the group's pieces exactly where the distribution says.
pub proof fn lemma_example_flags(c: nat, on: Seq<usize>, off: Seq<usize>)
    requires
        on.len() == 4,
        on.len() + off.len() <= 12,
        c < binom((on.len() + off.len()) as nat, 4) * 24,
        forall|k: int| 0 <= k < off.len() ==> !on.contains(#[trigger] off[k]),
    ensures
        layer_flags(layered_example(c, on, off), on) == dist_decode(c / 24, (on.len() + off.len()) as nat, 4),
        holds_group(layered_example(c, on, off), on),
        layered_example(c, on, off).len() == on.len() + off.len(),
{
    let n = (on.len() + off.len()) as nat;
    let d = dist_decode(c / 24, n, 4);
    assert(c / 24 < binom(n, 4)) by (nonlinear_arith)
        requires
            c < binom(n, 4) * 24,
    ;
    crate::coordutils::lemma_dist_decode_count(c / 24, n, 4);
    crate::mathutils::lemma_fact_four();
    lemma_perm_decode_range(c % 24, 4);
    let ins = perm_decode(c % 24, 4).map_values(|i: usize| on[i as int]);
    let e = layered_example(c, on, off);
    assert forall|j: int| 0 <= j < n implies #[trigger] layer_flags(e, on)[j] == d[j] by {
        crate::coordutils::lemma_count_true_take(d, j);
        crate::coordutils::lemma_count_true_take(d, j + 1);
        assert(d.take(j + 1).drop_last() =~= d.take(j));
        if d[j] {
            let k = count_true(d.take(j)) as int;
            assert(0 <= k < 4);
            assert(e[j] == on[perm_decode(c % 24, 4)[k] as int]);
            assert(on.contains(e[j]));
        } else {
            let k = j - count_true(d.take(j));
            assert(0 <= k < off.len());
            assert(e[j] == off[k]);
        }
    }
    assert(layer_flags(e, on) =~= d);
}

pub fn layer_contains(layer: &[usize], x: usize) -> (r: bool)
    ensures
        r == layer@.contains(x),
{
    let mut i: usize = 0;
    while i < layer.len()
        invariant
            i <= layer@.len(),
            forall|k: int| 0 <= k < i ==> layer@[k] != x,
        decreases layer@.len() - i,
    {
        if layer[i] == x {
            return true;
        }
        i = i + 1;
    }
    false
}

/// The coordinate of an arrangement holding exactly four pieces of the group.
pub fn get_coord_for_pieces(pieces: &[usize], on_layer: &[usize]) -> (coord: usize)
    requires
        pieces@.len() <= 12,
        holds_group(pieces@, on_layer@),
    ensures
        coord == layered_coord(pieces@, on_layer@),
        coord < binom(pieces@.len(), 4) * 24,
{
    let mut in_group: Vec<bool> = Vec::new();
    let mut in_group_pieces: Vec<usize> = Vec::new();
    let mut i: usize = 0;
    while i < pieces.len()
        invariant
            i <= pieces@.len() <= 12,
            in_group@ == layer_flags(pieces@.take(i as int), on_layer@),
            in_group_pieces@ == layer_pieces(pieces@.take(i as int), on_layer@),
        decreases pieces@.len() - i,
    {
        let piece = pieces[i];
        proof {
            assert(pieces@.take(i + 1).drop_last() =~= pieces@.take(i as int));
            assert(pieces@.take(i + 1).last() == piece);
        }
        if layer_contains(on_layer, piece) {
            in_group_pieces.push(piece);
            in_group.push(true);
        } else {
            in_group.push(false);
        }
        i = i + 1;
        proof {
            assert(in_group@ =~= layer_flags(pieces@.take(i as int), on_layer@));
        }
    }
    proof {
        assert(pieces@.take(i as int) =~= pieces@);
        lemma_layer_pieces_len(pieces@, on_layer@);
        crate::mathutils::lemma_fact_four();
        lemma_binom_small(pieces@.len(), 4);
    }
    let dist_coord = piece_distibution_to_coord(in_group.as_slice());
    let perm_coord = permutation_to_coord(in_group_pieces.as_slice());
    proof {
        assert(dist_coord * 24 + perm_coord < binom(pieces@.len(), 4) * 24) by (nonlinear_arith)
            requires
                dist_coord < binom(pieces@.len(), 4),
                perm_coord < 24,
        ;
    }
    dist_coord * 24 + perm_coord
}

/// The arrangement with the given coordinate.
pub fn get_pieces(coord: usize, on_layer: &[usize], off_layer: &[usize]) -> (pieces: Vec<usize>)
    requires
        on_layer@.len() == 4,
        on_layer@.len() + off_layer@.len() <= 12,
        coord < binom((on_layer@.len() + off_layer@.len()) as nat, 4) * 24,
    ensures
        pieces@ == layered_example(coord as nat, on_layer@, off_layer@),
{
    let dist_coord = coord / 24;
    let perm_coord = coord % 24;
    proof {
        crate::mathutils::lemma_fact_four();
        assert(dist_coord < binom((on_layer@.len() + off_layer@.len()) as nat, 4)) by (nonlinear_arith)
            requires
                coord < binom((on_layer@.len() + off_layer@.len()) as nat, 4) * 24,
                dist_coord == coord / 24,
        ;
        lemma_perm_decode_range(perm_coord as nat, 4);
    }
    let perm = coord_to_permutation(perm_coord, 4);
    let mut in_group_pieces: Vec<usize> = Vec::new();
    let mut i: usize = 0;
    let ghost target = perm_decode(perm_coord as nat, 4).map_values(|k: usize| on_layer@[k as int]);
    while i < 4
        invariant
            i <= 4,
            perm@ == perm_decode(perm_coord as nat, 4),
            perm@.len() == 4,
            on_layer@.len() == 4,
            forall|k: int| 0 <= k < 4 ==> #[trigger] perm@[k] < 4,
            target == perm_decode(perm_coord as nat, 4).map_values(|k: usize| on_layer@[k as int]),
            in_group_pieces@ == target.take(i as int),
        decreases 4 - i,
    {
        in_group_pieces.push(on_layer[perm[i]]);
        i = i + 1;
        proof {
            assert(in_group_pieces@ =~= target.take(i as int));
        }
    }
    proof {
        assert(target.take(4) =~= target);
    }
    get_perm_for_distribution_coord(dist_coord, in_group_pieces.as_slice(), off_layer)
}


/// Every piece of an arrangement built from a distribution is one of the pieces given.
pub proof fn lemma_example_values(c: nat, on: Seq<usize>, off: Seq<usize>, bound: usize)
    requires
        on.len() == 4,
        on.len() + off.len() <= 12,
        c < binom((on.len() + off.len()) as nat, 4) * 24,
        forall|k: int| 0 <= k < on.len() ==> #[trigger] on[k] < bound,
        forall|k: int| 0 <= k < off.len() ==> #[trigger] off[k] < bound,
    ensures
        layered_example(c, on, off).len() == on.len() + off.len(),
        forall|j: int| 0 <= j < on.len() + off.len() ==> #[trigger] layered_example(c, on, off)[j] < bound,
{
    let n = (on.len() + off.len()) as nat;
    let d = dist_decode(c / 24, n, 4);
    assert(c / 24 < binom(n, 4)) by (nonlinear_arith)
        requires
            c < binom(n, 4) * 24,
    ;
    crate::coordutils::lemma_dist_decode_count(c / 24, n, 4);
    crate::mathutils::lemma_fact_four();
    lemma_perm_decode_range(c % 24, 4);
    let e = layered_example(c, on, off);
    assert forall|j: int| 0 <= j < n implies #[trigger] e[j] < bound by {
        crate::coordutils::lemma_count_true_take(d, j);
        crate::coordutils::lemma_count_true_take(d, j + 1);
        assert(d.take(j + 1).drop_last() =~= d.take(j));
        if d[j] {
            let k = count_true(d.take(j)) as int;
            assert(e[j] == on[perm_decode(c % 24, 4)[k] as int]);
        } else {
            let k = j - count_true(d.take(j));
            assert(e[j] == off[k]);
        }
    }
}

/// For each position, whether it holds a piece of the group.
pub fn group_flags(pieces: &[usize], on_layer: &[usize]) -> (flags: Vec<bool>)
    ensures
        flags@ == layer_flags(pieces@, on_layer@),
{
    let mut flags: Vec<bool> = Vec::new();
    let mut i: usize = 0;
    while i < pieces.len()
        invariant
            i <= pieces@.len(),
            flags@ == layer_flags(pieces@.take(i as int), on_layer@),
        decreases pieces@.len() - i,
    {
        let b = layer_contains(on_layer, pieces[i]);
        flags.push(b);
        i = i + 1;
        proof {
            assert(flags@ =~= layer_flags(pieces@.take(i as int), on_layer@));
        }
    }
    proof {
        assert(pieces@.take(i as int) =~= pieces@);
    }
    flags
}

pub open spec fn strictly_increasing(s: Seq<usize>) -> bool {
    forall|a: int, b: int| 0 <= a < b < s.len() ==> s[a] < s[b]
}

proof fn lemma_relabel_larger_before(p: Seq<usize>, on: Seq<usize>, i: int, j: int)
    requires
        strictly_increasing(on),
        forall|k: int| 0 <= k < p.len() ==> #[trigger] p[k] < on.len(),
        0 <= i < p.len(),
        0 <= j <= p.len(),
    ensures
        larger_before(p.map_values(|x: usize| on[x as int]), i, j) == larger_before(p, i, j),
    decreases j,
{
    if j > 0 {
        lemma_relabel_larger_before(p, on, i, j - 1);
        let q = p.map_values(|x: usize| on[x as int]);
        assert(q[i] == on[p[i] as int] && q[j - 1] == on[p[j - 1] as int]);
        assert((q[i] < q[j - 1]) == (p[i] < p[j - 1])) by {
            if p[i] < p[j - 1] {
                assert(on[p[i] as int] < on[p[j - 1] as int]);
            } else if p[i] > p[j - 1] {
                assert(on[p[j - 1] as int] < on[p[i] as int]);
            }
        }
    }
}

proof fn lemma_relabel_lehmer_from(p: Seq<usize>, on: Seq<usize>, i: nat)
    requires
        strictly_increasing(on),
        forall|k: int| 0 <= k < p.len() ==> #[trigger] p[k] < on.len(),
    ensures
        lehmer_from(p.map_values(|x: usize| on[x as int]), i) == lehmer_from(p, i),
    decreases p.len() - i,
{
    if i < p.len() {
        lemma_relabel_lehmer_from(p, on, i + 1);
        lemma_relabel_larger_before(p, on, i as int, i as int);
    }
}

proof fn lemma_merge_layer_pieces(d: Seq<bool>, ins: Seq<usize>, outs: Seq<usize>, on: Seq<usize>, j: int)
    requires
        d.len() == ins.len() + outs.len(),
        count_true(d) == ins.len(),
        forall|k: int| 0 <= k < ins.len() ==> on.contains(#[trigger] ins[k]),
        forall|k: int| 0 <= k < outs.len() ==> !on.contains(#[trigger] outs[k]),
        0 <= j <= d.len(),
    ensures
        layer_pieces(merge_by(d, ins, outs).take(j), on) == ins.take(count_true(d.take(j)) as int),
    decreases j,
{
    let e = merge_by(d, ins, outs);
    if j == 0 {
        assert(e.take(0) =~= Seq::<usize>::empty());
        assert(d.take(0) =~= Seq::<bool>::empty());
        assert(ins.take(0) =~= Seq::<usize>::empty());
    } else {
        lemma_merge_layer_pieces(d, ins, outs, on, j - 1);
        crate::coordutils::lemma_count_true_take(d, j - 1);
        crate::coordutils::lemma_count_true_take(d, j);
        assert(d.take(j).drop_last() =~= d.take(j - 1));
        assert(e.take(j).drop_last() =~= e.take(j - 1));
        assert(e.take(j).last() == e[j - 1]);
        let ct = count_true(d.take(j - 1)) as int;
        if d[j - 1] {
            assert(e[j - 1] == ins[ct]);
            assert(ins.take(ct + 1) =~= ins.take(ct).push(ins[ct]));
        } else {
            assert(e[j - 1] == outs[j - 1 - ct]);
        }
    }
}

/// The example arrangement of a group coordinate reads back as that coordinate, when the
/// group's pieces are listed in increasing order and the other pieces are not in the group.
pub proof fn lemma_layered_round_trip(c: nat, on: Seq<usize>, off: Seq<usize>)
    requires
        on.len() == 4,
        on.len() + off.len() <= 12,
        c < binom((on.len() + off.len()) as nat, 4) * 24,
        forall|k: int| 0 <= k < off.len() ==> !on.contains(#[trigger] off[k]),
        strictly_increasing(on),
    ensures
        layered_coord(layered_example(c, on, off), on) == c,
{
    let n = (on.len() + off.len()) as nat;
    let d = dist_decode(c / 24, n, 4);
    let p = perm_decode(c % 24, 4);
    let ins = p.map_values(|i: usize| on[i as int]);
    let e = layered_example(c, on, off);
    assert(c / 24 < binom(n, 4)) by (nonlinear_arith)
        requires
            c < binom(n, 4) * 24,
    ;
    lemma_example_flags(c, on, off);
    lemma_dist_round_trip(c / 24, n, 4);
    crate::coordutils::lemma_dist_decode_count(c / 24, n, 4);
    crate::mathutils::lemma_fact_four();
    lemma_perm_decode_range(c % 24, 4);
    lemma_perm_round_trip(c % 24, 4);
    assert forall|k: int| 0 <= k < ins.len() implies on.contains(#[trigger] ins[k]) by {
        assert(ins[k] == on[p[k] as int]);
    }
    lemma_merge_layer_pieces(d, ins, off, on, n as int);
    assert(e.take(n as int) =~= e);
    assert(d.take(n as int) =~= d);
    assert(ins.take(4) =~= ins);
    lemma_relabel_lehmer_from(p, on, 1);
}

} // verus!
