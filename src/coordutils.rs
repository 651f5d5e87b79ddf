//! Bijections between cube sub-states and dense integer ranges: edge flips (base 2), corner
//! twists (base 3), permutations (Lehmer code), even permutations, and distributions of a
//! group of pieces over positions (combinadic).
use vstd::prelude::*;
use vstd::arithmetic::div_mod::{lemma_mod_breakdown, lemma_mod_mod, lemma_small_mod, lemma_fundamental_div_mod_converse};
use crate::mathutils::{binom, fact, pow2, binomial, factorial, lemma_binom_small, lemma_fact_bound, lemma_fact_positive};
use crate::rawcube::{Flip, Twist, flip_value, flip_of, twist_value, twist_of, swap_at};

verus! {

pub open spec fn pow3(n: nat) -> nat
    decreases n,
{
    if n == 0 {
        1
    } else {
        3 * pow3((n - 1) as nat)
    }
}

// ----- edge flips, base 2 -----

/// The flips read as a little-endian binary number.
pub open spec fn flip_coord(s: Seq<Flip>) -> nat
    decreases s.len(),
{
    if s.len() == 0 {
        0
    } else {
        flip_value(s[0]) + 2 * flip_coord(s.drop_first())
    }
}

/// The n flips whose little-endian binary number is c modulo 2^n.
pub open spec fn flips_of(c: nat, n: nat) -> Seq<Flip>
    decreases n,
{
    if n == 0 {
        Seq::empty()
    } else {
        seq![flip_of(c % 2)] + flips_of(c / 2, (n - 1) as nat)
    }
}

pub proof fn lemma_flip_coord_bound(s: Seq<Flip>)
    ensures
        flip_coord(s) < pow2(s.len()),
    decreases s.len(),
{
    if s.len() > 0 {
        lemma_flip_coord_bound(s.drop_first());
    }
}

/// The flip list read as a number: entry i is bit i.
pub fn flip_to_coord(flips: &[Flip]) -> (coord: usize)
    requires
        pow2(flips@.len()) <= usize::MAX + 1,
    ensures
        coord == flip_coord(flips@),
        coord < pow2(flips@.len()),
{
    let n = flips.len();
    let mut coord: usize = 0;
    let mut i: usize = n;
    while i > 0
        invariant
            i <= n == flips@.len(),
            pow2(n as nat) <= usize::MAX + 1,
            coord == flip_coord(flips@.subrange(i as int, n as int)),
            coord < pow2((n - i) as nat),
        decreases i,
    {
        i = i - 1;
        proof {
            let rest = flips@.subrange(i as int, n as int);
            assert(rest.drop_first() =~= flips@.subrange(i + 1, n as int));
            crate::mathutils::lemma_pow2_monotone((n - i) as nat, n as nat);
        }
        coord = coord * 2 + flips[i].value();
    }
    proof {
        assert(flips@.subrange(0, n as int) =~= flips@);
    }
    coord
}

/// The first num_pieces bits of coord as flips.
pub fn coord_to_flip(coord: usize, num_pieces: usize) -> (flips: Vec<Flip>)
    ensures
        flips@ == flips_of(coord as nat, num_pieces as nat),
{
    let mut flips: Vec<Flip> = Vec::new();
    let mut c: usize = coord;
    let mut i: usize = 0;
    while i < num_pieces
        invariant
            i <= num_pieces,
            flips@ + flips_of(c as nat, (num_pieces - i) as nat) == flips_of(coord as nat, num_pieces as nat),
        decreases num_pieces - i,
    {
        let ghost before = flips@;
        flips.push(Flip::from_value(c));
        proof {
            let rest = flips_of(c as nat, (num_pieces - i) as nat);
            assert(rest == seq![flip_of((c as nat) % 2)] + flips_of((c / 2) as nat, (num_pieces - i - 1) as nat));
            assert(flips@ + flips_of((c / 2) as nat, (num_pieces - i - 1) as nat) =~= before + rest);
        }
        c = c / 2;
        i = i + 1;
    }
    proof {
        assert(flips@ + flips_of(c as nat, 0) =~= flips@);
    }
    flips
}

// ----- corner twists, base 3 -----

/// The twists read as a little-endian base-3 number.
pub open spec fn twist_coord(s: Seq<Twist>) -> nat
    decreases s.len(),
{
    if s.len() == 0 {
        0
    } else {
        twist_value(s[0]) + 3 * twist_coord(s.drop_first())
    }
}

/// The n twists whose little-endian base-3 number is c modulo 3^n.
pub open spec fn twists_of(c: nat, n: nat) -> Seq<Twist>
    decreases n,
{
    if n == 0 {
        Seq::empty()
    } else {
        seq![twist_of(c % 3)] + twists_of(c / 3, (n - 1) as nat)
    }
}

proof fn lemma_pow3_monotone(m: nat, n: nat)
    requires
        m <= n,
    ensures
        pow3(m) <= pow3(n),
    decreases n,
{
    if m < n {
        lemma_pow3_monotone(m, (n - 1) as nat);
    }
}

pub proof fn lemma_twist_coord_bound(s: Seq<Twist>)
    ensures
        twist_coord(s) < pow3(s.len()),
    decreases s.len(),
{
    if s.len() > 0 {
        lemma_twist_coord_bound(s.drop_first());
    }
}

/// The twist list read as a base-3 number: entry i is digit i.
pub fn twist_to_coord(twist: &[Twist]) -> (coord: usize)
    requires
        pow3(twist@.len()) <= usize::MAX + 1,
    ensures
        coord == twist_coord(twist@),
        coord < pow3(twist@.len()),
{
    let n = twist.len();
    let mut coord: usize = 0;
    let mut i: usize = n;
    while i > 0
        invariant
            i <= n == twist@.len(),
            pow3(n as nat) <= usize::MAX + 1,
            coord == twist_coord(twist@.subrange(i as int, n as int)),
            coord < pow3((n - i) as nat),
        decreases i,
    {
        i = i - 1;
        proof {
            let rest = twist@.subrange(i as int, n as int);
            assert(rest.drop_first() =~= twist@.subrange(i + 1, n as int));
            lemma_pow3_monotone((n - i) as nat, n as nat);
        }
        coord = coord * 3 + twist[i].value();
    }
    proof {
        assert(twist@.subrange(0, n as int) =~= twist@);
    }
    coord
}

/// The first num_pieces base-3 digits of coord as twists.
pub fn coord_to_twist(coord: usize, num_pieces: usize) -> (twists: Vec<Twist>)
    ensures
        twists@ == twists_of(coord as nat, num_pieces as nat),
{
    let mut twists: Vec<Twist> = Vec::new();
    let mut c: usize = coord;
    let mut i: usize = 0;
    while i < num_pieces
        invariant
            i <= num_pieces,
            twists@ + twists_of(c as nat, (num_pieces - i) as nat) == twists_of(coord as nat, num_pieces as nat),
        decreases num_pieces - i,
    {
        let ghost before = twists@;
        twists.push(Twist::from_value(c));
        proof {
            let rest = twists_of(c as nat, (num_pieces - i) as nat);
            assert(rest == seq![twist_of((c as nat) % 3)] + twists_of((c / 3) as nat, (num_pieces - i - 1) as nat));
            assert(twists@ + twists_of((c / 3) as nat, (num_pieces - i - 1) as nat) =~= before + rest);
        }
        c = c / 3;
        i = i + 1;
    }
    proof {
        assert(twists@ + twists_of(c as nat, 0) =~= twists@);
    }
    twists
}


// ----- permutations -----

/// The number of positions k in [i + 1, j) holding a value smaller than position i.
pub open spec fn smaller_after(p: Seq<usize>, i: int, j: int) -> nat
    decreases j - i,
{
    if j <= i + 1 {
        0
    } else {
        smaller_after(p, i, j - 1) + (if p[i] > p[j - 1] { 1nat } else { 0nat })
    }
}

/// The number of inversions among the first i positions' pairs (a, b) with a < i, a < b.
pub open spec fn inversions_from_first(p: Seq<usize>, i: int) -> nat
    decreases i,
{
    if i <= 0 {
        0
    } else {
        inversions_from_first(p, i - 1) + smaller_after(p, i - 1, p.len() as int)
    }
}

/// The number of pairs a < b with p[a] > p[b].
pub open spec fn inversions(p: Seq<usize>) -> nat {
    inversions_from_first(p, p.len() as int)
}

/// Whether the permutation has an even number of inversions.
pub fn is_even_parity(perm: &[usize]) -> (even: bool)
    ensures
        even == (inversions(perm@) % 2 == 0),
{
    let n = perm.len();
    let mut result = true;
    let mut i: usize = 0;
    while i < n
        invariant
            i <= n == perm@.len(),
            result == (inversions_from_first(perm@, i as int) % 2 == 0),
        decreases n - i,
    {
        let mut j: usize = i + 1;
        let ghost base = inversions_from_first(perm@, i as int);
        while j < n
            invariant
                i < n == perm@.len(),
                i + 1 <= j <= n,
                result == ((base + smaller_after(perm@, i as int, j as int)) % 2 == 0),
            decreases n - j,
        {
            result = result ^ (perm[i] > perm[j]);
            j = j + 1;
        }
        i = i + 1;
    }
    result
}

/// The number of positions j < i holding a value larger than position i.
pub open spec fn larger_before(p: Seq<usize>, i: int, j: int) -> nat
    decreases j,
{
    if j <= 0 {
        0
    } else {
        larger_before(p, i, j - 1) + (if p[i] < p[j - 1] { 1nat } else { 0nat })
    }
}

proof fn lemma_larger_before_bound(p: Seq<usize>, i: int, j: int)
    ensures
        larger_before(p, i, j) <= if j < 0 { 0 } else { j },
    decreases j,
{
    if j > 0 {
        lemma_larger_before_bound(p, i, j - 1);
    }
}

/// Lehmer digit of position i: how many earlier positions hold a larger value.
pub open spec fn lehmer_digit(p: Seq<usize>, i: int) -> nat {
    larger_before(p, i, i)
}

/// The Lehmer code of positions i.. in Horner form: digit k has weight k! / (i - 1)!.
pub open spec fn lehmer_from(p: Seq<usize>, i: nat) -> nat
    decreases p.len() - i,
{
    if i >= p.len() {
        0
    } else {
        (lehmer_from(p, i + 1) + lehmer_digit(p, i as int)) * i
    }
}

/// The factoradic (Lehmer) coordinate of a sequence: sum over i of digit i times i!.
pub open spec fn perm_coord(p: Seq<usize>) -> nat {
    lehmer_from(p, 1)
}

/// i * (i + 1) * ... * n, and 1 when i > n.
pub open spec fn rising(i: nat, n: nat) -> nat
    decreases n + 1 - i,
{
    if i > n || i == 0 {
        1
    } else {
        i * rising(i + 1, n)
    }
}

proof fn lemma_rising_fact(i: nat, n: nat)
    requires
        1 <= i <= n + 1,
    ensures
        rising(i, n) * fact((i - 1) as nat) == fact(n),
    decreases n + 1 - i,
{
    if i <= n {
        lemma_rising_fact(i + 1, n);
        let r = rising(i + 1, n);
        let f = fact((i - 1) as nat);
        assert(fact(i) == i * f);
        assert(rising(i, n) == i * r);
        assert((i * r) * f == r * (i * f)) by (nonlinear_arith);
        assert(r * fact(i) == fact(n));
        assert(rising(i, n) * f == (i * r) * f);
    } else {
        assert(rising(i, n) == 1);
        assert(1 * fact(n) == fact(n));
    }
}

proof fn lemma_lehmer_bound(p: Seq<usize>, i: nat)
    requires
        1 <= i <= p.len(),
    ensures
        lehmer_from(p, i) + i <= rising(i, p.len()),
    decreases p.len() - i,
{
    if i < p.len() {
        lemma_larger_before_bound(p, i as int, i as int);
        lemma_lehmer_bound(p, i + 1);
        let a = lehmer_from(p, i + 1);
        let d = lehmer_digit(p, i as int);
        let r = rising(i + 1, p.len());
        assert(lehmer_from(p, i) == (a + d) * i);
        assert(rising(i, p.len()) == i * r);
        assert((a + d) * i + i <= i * r) by (nonlinear_arith)
            requires
                a + i + 1 <= r,
                d <= i,
        ;
    } else {
        assert(rising(i + 1, p.len()) == 1);
        assert(rising(i, p.len()) == i * rising(i + 1, p.len()));
    }
}

/// The Lehmer coordinate of a sequence of at most 12 values: for i from the last position
/// down to 1, add the number of earlier positions holding a larger value, then multiply by i.
pub fn permutation_to_coord(positions: &[usize]) -> (coord: usize)
    requires
        positions@.len() <= 12,
    ensures
        coord == perm_coord(positions@),
        positions@.len() >= 1 ==> coord < fact(positions@.len()),
{
    let n = positions.len();
    let mut coord: usize = 0;
    if n == 0 {
        return 0;
    }
    let mut i: usize = n - 1;
    proof {
        lemma_rising_fact(1, n as nat);
        lemma_fact_bound(n as nat);
        let ghost r1 = rising(1, n as nat);
        assert(fact(0nat) == 1);
        assert(r1 * fact(0nat) == r1) by (nonlinear_arith)
            requires
                fact(0nat) == 1,
        ;
    }
    while i >= 1
        invariant
            1 <= n <= 12,
            n == positions@.len(),
            i < n,
            coord == lehmer_from(positions@, (i + 1) as nat),
            rising(1, n as nat) == fact(n as nat) <= 479001600,
        decreases i,
    {
        let ghost acc = coord;
        let mut j: usize = 0;
        proof {
            lemma_lehmer_bound(positions@, (i + 1) as nat);
            lemma_rising_le((i + 1) as nat, n as nat);
        }
        while j < i
            invariant
                1 <= i < n == positions@.len(),
                n <= 12,
                j <= i,
                coord == acc + larger_before(positions@, i as int, j as int),
                acc + i + 1 <= rising((i + 1) as nat, n as nat) <= 479001600,
            decreases i - j,
        {
            proof {
                lemma_larger_before_bound(positions@, i as int, j as int);
            }
            if positions[i] < positions[j] {
                coord = coord + 1;
            }
            j = j + 1;
        }
        proof {
            lemma_lehmer_bound(positions@, i as nat);
            lemma_rising_le(i as nat, n as nat);
        }
        coord = coord * i;
        i = i - 1;
    }
    proof {
        lemma_lehmer_bound(positions@, 1);
    }
    coord
}

proof fn lemma_rising_le(i: nat, n: nat)
    requires
        1 <= i,
        n <= 12,
    ensures
        rising(i, n) <= 479001600,
    decreases n + 1 - i,
{
    if i > n {
    } else {
        lemma_rising_fact(i, n);
        lemma_fact_bound(n);
        lemma_fact_positive((i - 1) as nat);
        assert(rising(i, n) <= rising(i, n) * fact((i - 1) as nat)) by (nonlinear_arith)
            requires
                fact((i - 1) as nat) >= 1,
        ;
    }
}


/// n - 1, n - 2, ..., 0.
pub open spec fn descending(n: nat) -> Seq<usize> {
    Seq::new(n, |k: int| (n - 1 - k) as usize)
}

/// Fill positions i - 1 down to 0: position j takes the entry of `avail` (largest first)
/// whose index is the factoradic digit c / j!, and c keeps the remainder.
pub open spec fn perm_decode_from(c: nat, i: nat, avail: Seq<usize>, state: Seq<usize>) -> Seq<usize>
    decreases i,
{
    if i == 0 {
        state
    } else {
        let f = fact((i - 1) as nat);
        let idx = (c / f) as int;
        perm_decode_from(c % f, (i - 1) as nat, avail.remove(idx), state.update(i - 1, avail[idx]))
    }
}

/// The permutation of 0..n whose Lehmer coordinate is c.
pub open spec fn perm_decode(c: nat, n: nat) -> Seq<usize> {
    perm_decode_from(c, n, descending(n), Seq::new(n, |k: int| 0usize))
}

proof fn lemma_digit_bound(c: nat, i: nat)
    requires
        i >= 1,
        c < fact(i),
    ensures
        c / fact((i - 1) as nat) < i,
        fact((i - 1) as nat) >= 1,
{
    lemma_fact_positive((i - 1) as nat);
    let f = fact((i - 1) as nat);
    assert(fact(i) == i * f);
    assert(c / f < i) by (nonlinear_arith)
        requires
            c < i * f,
            f >= 1,
    ;
}

/// The permutation of 0..num_pieces with the given Lehmer coordinate.
pub fn coord_to_permutation(coord: usize, num_pieces: usize) -> (state: Vec<usize>)
    requires
        num_pieces <= 12,
        coord < fact(num_pieces as nat),
    ensures
        state@ == perm_decode(coord as nat, num_pieces as nat),
        state@.len() == num_pieces,
        perm_coord(state@) == coord,
{
    proof {
        lemma_perm_round_trip(coord as nat, num_pieces as nat);
    }
    let n = num_pieces;
    let mut state: Vec<usize> = Vec::new();
    let mut available: Vec<usize> = Vec::new();
    let mut k: usize = 0;
    while k < n
        invariant
            k <= n,
            state@ == Seq::new(k as nat, |j: int| 0usize),
            available@ == Seq::new(k as nat, |j: int| (n - 1 - j) as usize),
        decreases n - k,
    {
        state.push(0);
        available.push(n - 1 - k);
        k = k + 1;
        proof {
            assert(state@ =~= Seq::new(k as nat, |j: int| 0usize));
            assert(available@ =~= Seq::new(k as nat, |j: int| (n - 1 - j) as usize));
        }
    }
    proof {
        assert(available@ =~= descending(n as nat));
    }
    let mut c: usize = coord;
    let mut i: usize = n;
    while i > 0
        invariant
            i <= n <= 12,
            state@.len() == n,
            available@.len() == i,
            c < fact(i as nat),
            perm_decode_from(c as nat, i as nat, available@, state@) == perm_decode(coord as nat, n as nat),
        decreases i,
    {
        let pos = i - 1;
        let factor = factorial(pos);
        proof {
            lemma_digit_bound(c as nat, i as nat);
        }
        let index = c / factor;
        let piece = available.remove(index);
        state.set(pos, piece);
        c = c % factor;
        i = i - 1;
    }
    state
}

/// The Lehmer code of positions i.. with positions 0 and 1 left out: digits of positions
/// 3.. have the weights of the full code divided by 2, the digit of position 2 has weight 1.
pub open spec fn even_lehmer_from(p: Seq<usize>, i: nat) -> nat
    decreases p.len() - i,
{
    if i >= p.len() {
        0
    } else {
        let v = even_lehmer_from(p, i + 1) + lehmer_digit(p, i as int);
        if i > 2 {
            v * i
        } else {
            v
        }
    }
}

/// The coordinate of an even permutation: its Lehmer code without positions 0 and 1.
pub open spec fn perm_coord_even(p: Seq<usize>) -> nat {
    even_lehmer_from(p, 2)
}

proof fn lemma_even_lehmer_agrees(p: Seq<usize>, i: nat)
    requires
        i >= 3,
    ensures
        even_lehmer_from(p, i) == lehmer_from(p, i),
    decreases p.len() - i,
{
    if i < p.len() {
        lemma_even_lehmer_agrees(p, i + 1);
    }
}

/// The coordinate of a permutation whose first two positions follow from the rest by even
/// parity: for i from the last position down to 2, add the number of earlier positions
/// holding a larger value, then multiply by i while i > 2.
pub fn permutation_to_coord_even_parity(positions: &[usize]) -> (coord: usize)
    requires
        positions@.len() <= 12,
    ensures
        coord == perm_coord_even(positions@),
        positions@.len() >= 2 ==> 2 * coord < fact(positions@.len()),
{
    let n = positions.len();
    if n < 3 {
        proof {
            assert(even_lehmer_from(positions@, 2) == 0);
            if n == 2 {
                assert(fact(2) == 2) by {
                    reveal_with_fuel(fact, 3);
                }
            }
        }
        return 0;
    }
    let mut coord: usize = 0;
    let mut i: usize = n - 1;
    proof {
        lemma_rising_fact(3, n as nat);
        lemma_fact_bound(n as nat);
        reveal_with_fuel(fact, 3);
    }
    while i >= 2
        invariant
            3 <= n <= 12,
            n == positions@.len(),
            1 <= i < n,
            coord == even_lehmer_from(positions@, (i + 1) as nat),
            rising(3, n as nat) * 2 == fact(n as nat) <= 479001600,
        decreases i,
    {
        let ghost acc = coord;
        let mut j: usize = 0;
        proof {
            if i + 1 >= 3 {
                lemma_even_lehmer_agrees(positions@, (i + 1) as nat);
            }
            lemma_lehmer_bound(positions@, (i + 1) as nat);
            lemma_rising_le((i + 1) as nat, n as nat);
        }
        while j < i
            invariant
                2 <= i < n == positions@.len(),
                n <= 12,
                j <= i,
                coord == acc + larger_before(positions@, i as int, j as int),
                acc == even_lehmer_from(positions@, (i + 1) as nat),
                acc + i + 1 <= rising((i + 1) as nat, n as nat) <= 479001600,
            decreases i - j,
        {
            proof {
                lemma_larger_before_bound(positions@, i as int, j as int);
            }
            if positions[i] < positions[j] {
                coord = coord + 1;
            }
            j = j + 1;
        }
        if i > 2 {
            proof {
                lemma_even_lehmer_agrees(positions@, i as nat);
                lemma_lehmer_bound(positions@, i as nat);
                lemma_rising_le(i as nat, n as nat);
            }
            coord = coord * i;
        }
        i = i - 1;
    }
    proof {
        lemma_even_lehmer_agrees(positions@, 3);
        lemma_lehmer_bound(positions@, 3);
        lemma_larger_before_bound(positions@, 2, 2);
    }
    coord
}

/// The even permutation of 0..num_pieces with the given even-parity coordinate: the
/// permutation with Lehmer coordinate 2 * coord, with positions 0 and 1 exchanged when that
/// one is odd.
pub fn coord_to_permutation_even_parity(coord: usize, num_pieces: usize) -> (state: Vec<usize>)
    requires
        2 <= num_pieces <= 12,
        2 * coord < fact(num_pieces as nat),
    ensures
        state@ == perm_decode_even(coord as nat, num_pieces as nat),
        perm_coord_even(state@) == coord,
{
    proof {
        lemma_perm_even_round_trip(coord as nat, num_pieces as nat);
    }
    proof {
        lemma_fact_bound(num_pieces as nat);
    }
    let mut state = coord_to_permutation(coord * 2, num_pieces);
    if !is_even_parity(state.as_slice()) {
        let first = state[0];
        let second = state[1];
        state.set(0, second);
        state.set(1, first);
    }
    state
}


// ----- distributions, combinadic -----

pub open spec fn count_true(s: Seq<bool>) -> nat
    decreases s.len(),
{
    if s.len() == 0 {
        0
    } else {
        count_true(s.drop_last()) + (if s.last() { 1nat } else { 0nat })
    }
}

proof fn lemma_count_true_first(s: Seq<bool>)
    requires
        s.len() > 0,
    ensures
        count_true(s) == count_true(s.drop_first()) + (if s[0] { 1nat } else { 0nat }),
    decreases s.len(),
{
    if s.len() > 1 {
        let dl = s.drop_last();
        let df = s.drop_first();
        lemma_count_true_first(dl);
        assert(dl.drop_first() =~= df.drop_last());
        assert(df.last() == s.last());
        assert(dl[0] == s[0]);
        assert(count_true(s) == count_true(dl) + (if s.last() { 1nat } else { 0nat }));
        assert(count_true(df) == count_true(df.drop_last()) + (if df.last() { 1nat } else { 0nat }));
        assert(count_true(dl) == count_true(dl.drop_first()) + (if dl[0] { 1nat } else { 0nat }));
    } else {
        assert(s.drop_first().len() == 0);
        assert(s.drop_last().len() == 0);
        assert(s.last() == s[0]);
        assert(count_true(s.drop_last()) == 0);
        assert(count_true(s.drop_first()) == 0);
    }
}

pub proof fn lemma_count_true_take(s: Seq<bool>, j: int)
    requires
        0 <= j <= s.len(),
    ensures
        count_true(s.take(j)) <= count_true(s),
        count_true(s.take(j)) <= j,
        count_true(s) <= count_true(s.take(j)) + (s.len() - j),
    decreases s.len() - j,
{
    if j < s.len() {
        lemma_count_true_take(s, j + 1);
        assert(s.take(j + 1).drop_last() =~= s.take(j));
        lemma_count_true_le_len(s.take(j));
    } else {
        assert(s.take(j) =~= s);
        lemma_count_true_le_len(s);
    }
}

proof fn lemma_count_true_le_len(s: Seq<bool>)
    ensures
        count_true(s) <= s.len(),
    decreases s.len(),
{
    if s.len() > 0 {
        lemma_count_true_le_len(s.drop_last());
    }
}

/// The combinadic coordinate of a distribution, scanning from the high end: each position not
/// in the group adds C(n - 1, k - 1), where n counts the positions from it to the end and k the
/// group positions after it.
pub open spec fn dist_coord(s: Seq<bool>) -> nat
    decreases s.len(),
{
    if s.len() == 0 {
        0
    } else {
        let rest = s.drop_first();
        let k = count_true(rest);
        dist_coord(rest) + (if !s[0] && k >= 1 { binom(rest.len(), (k - 1) as nat) } else { 0 })
    }
}

/// The distribution of `left` group positions over m positions with coordinate c: walking from
/// the low end, a position is outside the group while c is at least C(remaining - 1, left - 1),
/// which it then gives up.
pub open spec fn dist_decode(c: nat, m: nat, left: nat) -> Seq<bool>
    decreases m,
{
    if m == 0 {
        Seq::empty()
    } else if left == 0 {
        Seq::new(m, |i: int| false)
    } else {
        let b = binom((m - 1) as nat, (left - 1) as nat);
        if c >= b {
            seq![false] + dist_decode((c - b) as nat, (m - 1) as nat, left)
        } else {
            seq![true] + dist_decode(c, (m - 1) as nat, (left - 1) as nat)
        }
    }
}

pub proof fn lemma_dist_coord_bound(s: Seq<bool>)
    ensures
        dist_coord(s) < binom(s.len(), count_true(s)),
    decreases s.len(),
{
    if s.len() > 0 {
        let rest = s.drop_first();
        lemma_dist_coord_bound(rest);
        lemma_count_true_first(s);
        let k = count_true(rest);
        if s[0] {
            assert(binom(s.len(), k + 1) == binom(rest.len(), k) + binom(rest.len(), k + 1));
        } else if k >= 1 {
            assert(binom(s.len(), k) == binom(rest.len(), (k - 1) as nat) + binom(rest.len(), k));
        } else {
            assert(binom(s.len(), 0) == 1);
        }
    }
}

/// The combinadic coordinate of a distribution of group positions (true) over at most 12
/// positions.
pub fn piece_distibution_to_coord(state: &[bool]) -> (coord: usize)
    requires
        state@.len() <= 12,
    ensures
        coord == dist_coord(state@),
        coord < binom(state@.len(), count_true(state@)),
{
    let len = state.len();
    let mut coord: usize = 0;
    let mut n: usize = 0;
    let mut k: usize = 0;
    let mut i: usize = len;
    proof {
        assert(state@.subrange(len as int, len as int) =~= Seq::<bool>::empty());
    }
    while i > 0
        invariant
            i <= len == state@.len() <= 12,
            n == len - i,
            k == count_true(state@.subrange(i as int, len as int)),
            k <= n,
            coord == dist_coord(state@.subrange(i as int, len as int)),
            coord < binom(n as nat, k as nat),
        decreases i,
    {
        i = i - 1;
        let ghost sub = state@.subrange(i as int, len as int);
        proof {
            assert(sub.drop_first() =~= state@.subrange(i + 1, len as int));
            lemma_count_true_first(sub);
            lemma_dist_coord_bound(sub);
            lemma_count_true_le_len(sub);
        }
        if state[i] {
            k = k + 1;
            n = n + 1;
        } else {
            n = n + 1;
            if (n >= 1) && (k >= 1) {
                proof {
                    lemma_binom_small((n - 1) as nat, (k - 1) as nat);
                    lemma_binom_small(n as nat, k as nat);
                }
                coord = coord + binomial(n - 1, k - 1);
            }
        }
    }
    proof {
        assert(state@.subrange(0, len as int) =~= state@);
    }
    coord
}

proof fn lemma_dist_decode_len(c: nat, m: nat, left: nat)
    ensures
        dist_decode(c, m, left).len() == m,
    decreases m,
{
    if m > 0 && left > 0 {
        let b = binom((m - 1) as nat, (left - 1) as nat);
        if c >= b {
            lemma_dist_decode_len((c - b) as nat, (m - 1) as nat, left);
        } else {
            lemma_dist_decode_len(c, (m - 1) as nat, (left - 1) as nat);
        }
    }
}

/// The distribution of num_pieces_of_interest group positions over num_positions positions
/// with the given combinadic coordinate.
pub fn coord_to_piece_distribution(coord: usize, num_positions: usize, num_pieces_of_interest: usize) -> (state: Vec<bool>)
    requires
        num_positions <= 12,
        num_pieces_of_interest >= 1,
        coord < binom(num_positions as nat, num_pieces_of_interest as nat),
    ensures
        state@ == dist_decode(coord as nat, num_positions as nat, num_pieces_of_interest as nat),
{
    let n_all = num_positions;
    let mut state: Vec<bool> = Vec::new();
    let mut t: usize = 0;
    while t < n_all
        invariant
            t <= n_all,
            state@ == Seq::new(t as nat, |i: int| false),
        decreases n_all - t,
    {
        state.push(false);
        t = t + 1;
        proof {
            assert(state@ =~= Seq::new(t as nat, |i: int| false));
        }
    }
    let mut c: usize = coord;
    let mut num_left: usize = num_pieces_of_interest;
    let mut j: usize = 0;
    let ghost target = dist_decode(coord as nat, n_all as nat, num_pieces_of_interest as nat);
    proof {
        if num_pieces_of_interest > n_all {
            crate::mathutils::lemma_binom_zero(n_all as nat, num_pieces_of_interest as nat);
        }
        assert(state@.take(0) =~= Seq::<bool>::empty());
        assert(state@.take(0) + target =~= target);
    }
    while j < n_all
        invariant
            j <= n_all <= 12,
            state@.len() == n_all,
            num_left >= 1,
            num_left <= n_all - j,
            c < binom((n_all - j) as nat, num_left as nat),
            forall|i: int| j <= i < n_all ==> !(#[trigger] state@[i]),
            state@.take(j as int) + dist_decode(c as nat, (n_all - j) as nat, num_left as nat) == target,
            target == dist_decode(coord as nat, num_positions as nat, num_pieces_of_interest as nat),
            n_all == num_positions,
        decreases n_all - j,
    {
        let n = n_all - j - 1;
        proof {
            lemma_binom_small(n as nat, (num_left - 1) as nat);
            lemma_binom_small((n + 1) as nat, num_left as nat);
            assert(binom((n + 1) as nat, num_left as nat) == binom(n as nat, (num_left - 1) as nat) + binom(n as nat, num_left as nat));
        }
        let n_choose_k = binomial(n, num_left - 1);
        proof {
            if num_left > n {
                crate::mathutils::lemma_binom_zero(n as nat, num_left as nat);
            }
        }
        let ghost before = state@;
        let ghost old_c = c;
        let ghost old_left = num_left;
        if c >= n_choose_k {
            c = c - n_choose_k;
        } else {
            state.set(j, true);
            num_left = num_left - 1;
        }
        proof {
            let m = (n_all - j) as nat;
            assert(dist_decode(old_c as nat, m, old_left as nat) == seq![state@[j as int]] + dist_decode(c as nat, (m - 1) as nat, num_left as nat));
            assert(state@.take(j + 1) =~= before.take(j as int) + seq![state@[j as int]]);
            assert(state@.take(j + 1) + dist_decode(c as nat, (m - 1) as nat, num_left as nat) =~= before.take(j as int) + dist_decode(old_c as nat, m, old_left as nat));
        }
        j = j + 1;
        if num_left == 0 {
            proof {
                let m = (n_all - j) as nat;
                assert(state@.take(j as int) + dist_decode(c as nat, m, 0) == target);
                assert(dist_decode(c as nat, m, 0) =~= Seq::new(m, |i: int| false));
                assert(state@ =~= state@.take(j as int) + dist_decode(c as nat, m, 0));
            }
            return state;
        }
    }
    proof {
        assert(state@ =~= state@.take(j as int) + dist_decode(c as nat, 0, num_left as nat));
    }
    state
}


pub proof fn lemma_dist_decode_count(c: nat, m: nat, left: nat)
    requires
        c < binom(m, left),
    ensures
        count_true(dist_decode(c, m, left)) == left,
        dist_decode(c, m, left).len() == m,
    decreases m,
{
    lemma_dist_decode_len(c, m, left);
    let d = dist_decode(c, m, left);
    if m == 0 {
        if left > 0 {
            crate::mathutils::lemma_binom_zero(0, left);
        }
    } else if left == 0 {
        lemma_count_true_all_false(m);
    } else {
        let b = binom((m - 1) as nat, (left - 1) as nat);
        lemma_count_true_first(d);
        if c >= b {
            lemma_dist_decode_count((c - b) as nat, (m - 1) as nat, left);
            assert(d.drop_first() =~= dist_decode((c - b) as nat, (m - 1) as nat, left));
        } else {
            lemma_dist_decode_count(c, (m - 1) as nat, (left - 1) as nat);
            assert(d.drop_first() =~= dist_decode(c, (m - 1) as nat, (left - 1) as nat));
        }
    }
}

proof fn lemma_count_true_all_false(m: nat)
    ensures
        count_true(Seq::new(m, |i: int| false)) == 0,
    decreases m,
{
    if m > 0 {
        lemma_count_true_all_false((m - 1) as nat);
        assert(Seq::new(m, |i: int| false).drop_last() =~= Seq::new((m - 1) as nat, |i: int| false));
    }
}

/// Positions of the group take the group's pieces in order, the other positions the other
/// pieces in order.
pub open spec fn merge_by<T>(d: Seq<bool>, ins: Seq<T>, outs: Seq<T>) -> Seq<T> {
    Seq::new(
        d.len(),
        |j: int|
            if d[j] {
                ins[count_true(d.take(j)) as int]
            } else {
                outs[j - count_true(d.take(j))]
            },
    )
}

/// The arrangement of the group's pieces and the other pieces whose distribution has the given
/// combinadic coordinate, each kind kept in the order given.
pub fn get_perm_for_distribution_coord<T: Copy>(coord: usize, in_group_pieces: &[T], out_of_group_pieces: &[T]) -> (pieces: Vec<T>)
    requires
        in_group_pieces@.len() + out_of_group_pieces@.len() <= 12,
        in_group_pieces@.len() >= 1,
        coord < binom((in_group_pieces@.len() + out_of_group_pieces@.len()) as nat, in_group_pieces@.len() as nat),
    ensures
        pieces@ == merge_by(
            dist_decode(coord as nat, (in_group_pieces@.len() + out_of_group_pieces@.len()) as nat, in_group_pieces@.len() as nat),
            in_group_pieces@,
            out_of_group_pieces@,
        ),
{
    let num_in_group = in_group_pieces.len();
    let num_positions = num_in_group + out_of_group_pieces.len();
    let layer_distribution = coord_to_piece_distribution(coord, num_positions, num_in_group);
    let ghost d = layer_distribution@;
    proof {
        lemma_dist_decode_count(coord as nat, num_positions as nat, num_in_group as nat);
    }
    let mut on_layer_index: usize = 0;
    let mut off_layer_index: usize = 0;
    let mut pieces: Vec<T> = Vec::new();
    let mut j: usize = 0;
    while j < num_positions
        invariant
            d == layer_distribution@,
            d.len() == num_positions,
            num_positions == num_in_group + out_of_group_pieces@.len(),
            num_in_group == in_group_pieces@.len(),
            count_true(d) == num_in_group,
            j <= num_positions,
            on_layer_index == count_true(d.take(j as int)),
            off_layer_index == j - on_layer_index,
            pieces@.len() == j,
            forall|i: int| 0 <= i < j ==> #[trigger] pieces@[i] == merge_by(d, in_group_pieces@, out_of_group_pieces@)[i],
        decreases num_positions - j,
    {
        proof {
            assert(d.take(j + 1).drop_last() =~= d.take(j as int));
            lemma_count_true_take(d, j + 1);
            lemma_count_true_take(d, j as int);
        }
        if layer_distribution[j] {
            pieces.push(in_group_pieces[on_layer_index]);
            on_layer_index = on_layer_index + 1;
        } else {
            pieces.push(out_of_group_pieces[off_layer_index]);
            off_layer_index = off_layer_index + 1;
        }
        j = j + 1;
    }
    proof {
        assert(pieces@ =~= merge_by(d, in_group_pieces@, out_of_group_pieces@));
    }
    pieces
}

// ----- laws of the encodings -----

/// Reading back the flips of a coordinate gives the coordinate modulo 2^n.
pub proof fn lemma_flip_round_trip(c: nat, n: nat)
    ensures
        flip_coord(flips_of(c, n)) == c % pow2(n),
    decreases n,
{
    if n == 0 {
        assert(flips_of(c, n).len() == 0);
    } else {
        let f = flips_of(c, n);
        lemma_flip_round_trip(c / 2, (n - 1) as nat);
        assert(f.drop_first() =~= flips_of(c / 2, (n - 1) as nat));
        crate::mathutils::lemma_pow2_positive((n - 1) as nat);
        lemma_mod_breakdown(c as int, 2, pow2((n - 1) as nat) as int);
        assert(pow2(n) == 2 * pow2((n - 1) as nat));
    }
}

/// Encoding flips and decoding the coordinate gives the flips back.
pub proof fn lemma_flips_of_coord(s: Seq<Flip>)
    ensures
        flips_of(flip_coord(s), s.len()) == s,
    decreases s.len(),
{
    if s.len() > 0 {
        let rest = s.drop_first();
        lemma_flips_of_coord(rest);
        let v = flip_coord(s);
        assert(v % 2 == flip_value(s[0]) && v / 2 == flip_coord(rest));
        assert(flip_of(flip_value(s[0])) == s[0]);
        assert(flips_of(v, s.len()) =~= s);
    } else {
        assert(flips_of(flip_coord(s), 0) =~= s);
    }
}

/// Reading back the twists of a coordinate gives the coordinate modulo 3^n.
pub proof fn lemma_twist_round_trip(c: nat, n: nat)
    ensures
        twist_coord(twists_of(c, n)) == c % pow3(n),
    decreases n,
{
    if n == 0 {
        assert(twists_of(c, n).len() == 0);
    } else {
        let f = twists_of(c, n);
        lemma_twist_round_trip(c / 3, (n - 1) as nat);
        assert(f.drop_first() =~= twists_of(c / 3, (n - 1) as nat));
        lemma_pow3_positive((n - 1) as nat);
        lemma_mod_breakdown(c as int, 3, pow3((n - 1) as nat) as int);
        assert(pow3(n) == 3 * pow3((n - 1) as nat));
    }
}

/// Encoding twists and decoding the coordinate gives the twists back.
pub proof fn lemma_twists_of_coord(s: Seq<Twist>)
    ensures
        twists_of(twist_coord(s), s.len()) == s,
    decreases s.len(),
{
    if s.len() > 0 {
        let rest = s.drop_first();
        lemma_twists_of_coord(rest);
        let v = twist_coord(s);
        assert(v % 3 == twist_value(s[0]) && v / 3 == twist_coord(rest));
        assert(twist_of(twist_value(s[0])) == s[0]);
        assert(twists_of(v, s.len()) =~= s);
    } else {
        assert(twists_of(twist_coord(s), 0) =~= s);
    }
}

proof fn lemma_dist_coord_all_false(m: nat)
    ensures
        dist_coord(Seq::new(m, |i: int| false)) == 0,
    decreases m,
{
    if m > 0 {
        let s = Seq::new(m, |i: int| false);
        lemma_dist_coord_all_false((m - 1) as nat);
        lemma_count_true_all_false((m - 1) as nat);
        assert(s.drop_first() =~= Seq::new((m - 1) as nat, |i: int| false));
    }
}

proof fn lemma_count_true_zero(s: Seq<bool>)
    requires
        count_true(s) == 0,
    ensures
        s =~= Seq::new(s.len(), |i: int| false),
    decreases s.len(),
{
    if s.len() > 0 {
        lemma_count_true_zero(s.drop_last());
        assert forall|i: int| 0 <= i < s.len() implies !s[i] by {
            if i < s.len() - 1 {
                assert(s.drop_last()[i] == s[i]);
            }
        }
    }
}

/// Decoding a distribution coordinate and encoding the distribution gives the coordinate back.
pub proof fn lemma_dist_round_trip(c: nat, m: nat, k: nat)
    requires
        c < binom(m, k),
    ensures
        dist_coord(dist_decode(c, m, k)) == c,
    decreases m,
{
    let d = dist_decode(c, m, k);
    if m == 0 {
        if k > 0 {
            crate::mathutils::lemma_binom_zero(0, k);
        }
    } else if k == 0 {
        lemma_dist_coord_all_false(m);
    } else {
        let b = binom((m - 1) as nat, (k - 1) as nat);
        let rest = d.drop_first();
        if c >= b {
            lemma_dist_round_trip((c - b) as nat, (m - 1) as nat, k);
            lemma_dist_decode_count((c - b) as nat, (m - 1) as nat, k);
            assert(rest =~= dist_decode((c - b) as nat, (m - 1) as nat, k));
        } else {
            lemma_dist_round_trip(c, (m - 1) as nat, (k - 1) as nat);
            assert(rest =~= dist_decode(c, (m - 1) as nat, (k - 1) as nat));
        }
    }
}

/// Encoding a distribution and decoding the coordinate gives the distribution back.
pub proof fn lemma_dist_coord_round_trip(s: Seq<bool>)
    ensures
        dist_decode(dist_coord(s), s.len(), count_true(s)) == s,
    decreases s.len(),
{
    let m = s.len();
    let k = count_true(s);
    if m == 0 {
        assert(dist_decode(dist_coord(s), 0, k) =~= s);
    } else if k == 0 {
        lemma_count_true_zero(s);
    } else {
        let rest = s.drop_first();
        lemma_count_true_first(s);
        lemma_dist_coord_round_trip(rest);
        lemma_dist_coord_bound(rest);
        let b = binom((m - 1) as nat, (k - 1) as nat);
        assert(dist_decode(dist_coord(s), m, k) =~= s);
    }
}

/// Flips all bad read as 2^n - 1, flips all good as 0.
pub proof fn lemma_flip_coord_extremes(n: nat)
    ensures
        flip_coord(Seq::new(n, |i: int| Flip::Bad)) == pow2(n) - 1,
        flip_coord(Seq::new(n, |i: int| Flip::Good)) == 0,
    decreases n,
{
    if n > 0 {
        lemma_flip_coord_extremes((n - 1) as nat);
        assert(Seq::new(n, |i: int| Flip::Bad).drop_first() =~= Seq::new((n - 1) as nat, |i: int| Flip::Bad));
        assert(Seq::new(n, |i: int| Flip::Good).drop_first() =~= Seq::new((n - 1) as nat, |i: int| Flip::Good));
        crate::mathutils::lemma_pow2_positive((n - 1) as nat);
    }
}

/// Twists all anticlockwise read as 3^n - 1 (6560 for the eight corners).
pub proof fn lemma_twist_coord_all_anticlockwise(n: nat)
    ensures
        twist_coord(Seq::new(n, |i: int| Twist::ACW)) == pow3(n) - 1,
        n == 8 ==> pow3(n) - 1 == 6560,
    decreases n,
{
    if n > 0 {
        lemma_twist_coord_all_anticlockwise((n - 1) as nat);
        assert(Seq::new(n, |i: int| Twist::ACW).drop_first() =~= Seq::new((n - 1) as nat, |i: int| Twist::ACW));
        lemma_pow3_positive((n - 1) as nat);
    }
    reveal_with_fuel(pow3, 9);
}

proof fn lemma_pow3_positive(n: nat)
    ensures
        pow3(n) >= 1,
    decreases n,
{
    if n > 0 {
        lemma_pow3_positive((n - 1) as nat);
    }
}

/// Group positions all at the low end give coordinate 0, all at the high end C(n, k) - 1.
pub proof fn lemma_dist_coord_extremes(n: nat, k: nat)
    requires
        k <= n,
    ensures
        dist_coord(Seq::new(n, |i: int| i < k)) == 0,
        dist_coord(Seq::new(n, |i: int| i >= n - k)) == binom(n, k) - 1,
    decreases n,
{
    let low = Seq::new(n, |i: int| i < k);
    let high = Seq::new(n, |i: int| i >= n - k);
    if n > 0 {
        lemma_count_true_first(low);
        lemma_count_true_first(high);
        if k > 0 {
            lemma_dist_coord_extremes((n - 1) as nat, (k - 1) as nat);
            assert(low.drop_first() =~= Seq::new((n - 1) as nat, |i: int| i < k - 1));
        } else {
            lemma_dist_coord_all_false(n);
            assert(low =~= Seq::new(n, |i: int| false));
        }
        if k < n {
            lemma_dist_coord_extremes((n - 1) as nat, k);
            assert(high.drop_first() =~= Seq::new((n - 1) as nat, |i: int| i >= (n - 1) - k));
            lemma_count_true_high((n - 1) as nat, k);
            if k >= 1 {
                assert(binom(n, k) == binom((n - 1) as nat, (k - 1) as nat) + binom((n - 1) as nat, k));
                crate::mathutils::lemma_binom_positive((n - 1) as nat, k);
            } else {
                assert(binom(n, 0) == 1 && binom((n - 1) as nat, 0) == 1);
            }
        } else {
            assert(high =~= Seq::new(n, |i: int| true));
            lemma_dist_coord_all_true(n);
            crate::mathutils::lemma_binom_diagonal(n);
        }
    }
}

proof fn lemma_count_true_high(n: nat, k: nat)
    requires
        k <= n,
    ensures
        count_true(Seq::new(n, |i: int| i >= n - k)) == k,
    decreases n,
{
    let s = Seq::new(n, |i: int| i >= n - k);
    if n > 0 {
        if k > 0 {
            lemma_count_true_high((n - 1) as nat, (k - 1) as nat);
            assert(s.drop_last() =~= Seq::new((n - 1) as nat, |i: int| i >= (n - 1) - (k - 1)));
        } else {
            lemma_count_true_high((n - 1) as nat, 0);
            assert(s.drop_last() =~= Seq::new((n - 1) as nat, |i: int| i >= (n - 1) - 0));
        }
    }
}

proof fn lemma_dist_coord_all_true(n: nat)
    ensures
        dist_coord(Seq::new(n, |i: int| true)) == 0,
    decreases n,
{
    if n > 0 {
        lemma_dist_coord_all_true((n - 1) as nat);
        assert(Seq::new(n, |i: int| true).drop_first() =~= Seq::new((n - 1) as nat, |i: int| true));
    }
}

/// 0, 1, ..., n - 1.
pub open spec fn identity_perm(n: nat) -> Seq<usize> {
    Seq::new(n, |k: int| k as usize)
}

/// The identity permutation has coordinate 0.
pub proof fn lemma_identity_coord(n: nat)
    requires
        n <= 12,
    ensures
        perm_coord(identity_perm(n)) == 0,
{
    let p = identity_perm(n);
    assert forall|i: nat| 1 <= i <= n implies #[trigger] lehmer_from(p, i) == 0 by {
        lemma_identity_lehmer_from(n, i);
    }
    if n == 0 {
        assert(lehmer_from(p, 1) == 0);
    }
}

proof fn lemma_identity_lehmer_from(n: nat, i: nat)
    requires
        1 <= i <= n <= 12,
    ensures
        lehmer_from(identity_perm(n), i) == 0,
    decreases n - i,
{
    let p = identity_perm(n);
    let p = identity_perm(n);
    assert(p.len() == n);
    if i < n {
        lemma_identity_lehmer_from(n, i + 1);
        lemma_identity_digit(n, i as int, i as int);
        assert(lehmer_digit(p, i as int) == 0);
        let a = lehmer_from(p, i + 1);
        let d = lehmer_digit(p, i as int);
        assert(a == 0);
        assert(lehmer_from(p, i) == (a + d) * i);
        assert((a + d) * i == 0) by (nonlinear_arith)
            requires
                a == 0,
                d == 0,
        ;
    } else {
        assert(lehmer_from(p, i) == 0);
    }
}

proof fn lemma_identity_digit(n: nat, i: int, j: int)
    requires
        0 <= j <= i < n <= 12,
    ensures
        larger_before(identity_perm(n), i, j) == 0,
    decreases j,
{
    if j > 0 {
        lemma_identity_digit(n, i, j - 1);
        let p = identity_perm(n);
        assert(p[i] == i as usize && p[j - 1] == (j - 1) as usize);
        assert(!(p[i] < p[j - 1]));
    }
}

proof fn lemma_descending_digit(n: nat, i: int, j: int)
    requires
        0 <= j <= i < n <= 12,
    ensures
        larger_before(descending(n), i, j) == j,
    decreases j,
{
    if j > 0 {
        lemma_descending_digit(n, i, j - 1);
        let p = descending(n);
        assert(p[i] == (n - 1 - i) as usize && p[j - 1] == (n - 1 - (j - 1)) as usize);
    }
}

proof fn lemma_descending_lehmer_from(n: nat, i: nat)
    requires
        1 <= i <= n <= 12,
    ensures
        lehmer_from(descending(n), i) + i == rising(i, n),
    decreases n - i,
{
    let p = descending(n);
    if i < n {
        lemma_descending_lehmer_from(n, i + 1);
        lemma_descending_digit(n, i as int, i as int);
        let a = lehmer_from(p, i + 1);
        let r = rising(i + 1, n);
        assert(lehmer_from(p, i) == (a + i) * i);
        assert(rising(i, n) == i * r);
        assert((a + i) * i + i == i * r) by (nonlinear_arith)
            requires
                a + i + 1 == r,
        ;
    } else {
        assert(lehmer_from(p, i) == 0);
        assert(rising(i + 1, n) == 1);
        assert(rising(i, n) == i * rising(i + 1, n));
    }
}

/// The reversed permutation n - 1, ..., 0 has the last coordinate, n! - 1.
pub proof fn lemma_descending_coord(n: nat)
    requires
        1 <= n <= 12,
    ensures
        perm_coord(descending(n)) == fact(n) - 1,
{
    lemma_descending_lehmer_from(n, 1);
    lemma_rising_fact(1, n);
    assert(fact(0nat) == 1);
    let r1 = rising(1, n);
    assert(r1 * fact(0nat) == r1) by (nonlinear_arith)
        requires
            fact(0nat) == 1,
    ;
}

/// The reversed permutation n - 1, ..., 0 has the last even-parity coordinate, n!/2 - 1.
pub proof fn lemma_descending_coord_even(n: nat)
    requires
        2 <= n <= 12,
    ensures
        perm_coord_even(descending(n)) == fact(n) / 2 - 1,
{
    let p = descending(n);
    reveal_with_fuel(fact, 3);
    if n == 2 {
        assert(even_lehmer_from(p, 2) == 0);
    } else {
        lemma_descending_lehmer_from(n, 3);
        lemma_even_lehmer_agrees(p, 3);
        lemma_descending_digit(n, 2, 2);
        lemma_rising_fact(3, n);
        assert(even_lehmer_from(p, 2) == even_lehmer_from(p, 3) + lehmer_digit(p, 2));
        assert(fact(n) / 2 == rising(3, n)) by (nonlinear_arith)
            requires
                rising(3, n) * 2 == fact(n),
        ;
    }
}

/// The identity with positions i and i + 1 exchanged.
pub open spec fn adjacent_transposition(n: nat, i: int) -> Seq<usize> {
    swap_at(identity_perm(n), i, i + 1)
}

proof fn lemma_transposition_smaller_after(n: nat, i: int, a: int, j: int)
    requires
        0 <= i,
        i + 1 < n <= 12,
        0 <= a < n,
        a < j <= n,
    ensures
        smaller_after(adjacent_transposition(n, i), a, j) == (if a == i && j > i + 1 { 1nat } else { 0nat }),
    decreases j - a,
{
    let p = adjacent_transposition(n, i);
    assert(p.len() == n);
    assert forall|k: int| 0 <= k < n implies #[trigger] p[k] == (if k == i { (i + 1) as usize } else if k == i + 1 { i as usize } else { k as usize }) by {
    }
    if j > a + 1 {
        lemma_transposition_smaller_after(n, i, a, j - 1);
    }
}

proof fn lemma_transposition_inversions_from(n: nat, i: int, m: int)
    requires
        0 <= i,
        i + 1 < n <= 12,
        0 <= m <= n,
    ensures
        inversions_from_first(adjacent_transposition(n, i), m) == (if m > i { 1nat } else { 0nat }),
    decreases m,
{
    if m > 0 {
        lemma_transposition_inversions_from(n, i, m - 1);
        lemma_transposition_smaller_after(n, i, m - 1, n as int);
    }
}

/// Exchanging two adjacent entries of the identity gives a permutation with one inversion:
/// an odd permutation.
pub proof fn lemma_adjacent_transposition_is_odd(n: nat, i: int)
    requires
        0 <= i,
        i + 1 < n <= 12,
    ensures
        inversions(adjacent_transposition(n, i)) == 1,
{
    lemma_transposition_inversions_from(n, i, n as int);
}

/// The number of entries greater than x.
pub open spec fn count_greater(s: Seq<usize>, x: usize) -> nat
    decreases s.len(),
{
    if s.len() == 0 {
        0
    } else {
        count_greater(s.drop_last(), x) + (if s.last() > x { 1nat } else { 0nat })
    }
}

pub open spec fn strictly_descending(s: Seq<usize>) -> bool {
    forall|a: int, b: int| 0 <= a < b < s.len() ==> s[a] > s[b]
}

proof fn lemma_larger_before_count(p: Seq<usize>, i: int, j: int)
    requires
        0 <= j <= p.len(),
        0 <= i < p.len(),
    ensures
        larger_before(p, i, j) == count_greater(p.take(j), p[i]),
    decreases j,
{
    if j > 0 {
        lemma_larger_before_count(p, i, j - 1);
        assert(p.take(j).drop_last() =~= p.take(j - 1));
    } else {
        assert(p.take(0).len() == 0);
    }
}

proof fn lemma_count_greater_remove(s: Seq<usize>, idx: int, x: usize)
    requires
        0 <= idx < s.len(),
    ensures
        count_greater(s.remove(idx), x) + (if s[idx] > x { 1nat } else { 0nat }) == count_greater(s, x),
    decreases s.len(),
{
    if idx == s.len() - 1 {
        assert(s.remove(idx) =~= s.drop_last());
    } else {
        lemma_count_greater_remove(s.drop_last(), idx, x);
        assert(s.remove(idx).drop_last() =~= s.drop_last().remove(idx));
        assert(s.remove(idx).last() == s.last());
    }
}

proof fn lemma_count_greater_prefix(s: Seq<usize>, idx: int, m: int)
    requires
        strictly_descending(s),
        0 <= idx < s.len(),
        0 <= m <= s.len(),
    ensures
        count_greater(s.take(m), s[idx]) == if m < idx { m } else { idx },
    decreases m,
{
    if m > 0 {
        lemma_count_greater_prefix(s, idx, m - 1);
        assert(s.take(m).drop_last() =~= s.take(m - 1));
        assert(s.take(m).last() == s[m - 1]);
    } else {
        assert(s.take(0).len() == 0);
    }
}

/// The permutation decoded from position i down: the entries of `avail` fill positions
/// 0..i, the positions from i on keep `state`, and position j < i gets the Lehmer digit
/// (c mod (j + 1)!) / j!.
pub proof fn lemma_perm_decode_digits(c: nat, i: nat, avail: Seq<usize>, state: Seq<usize>)
    requires
        strictly_descending(avail),
        avail.len() == i,
        i <= state.len(),
        c < fact(i),
    ensures
        ({
            let r = perm_decode_from(c, i, avail, state);
            &&& r.len() == state.len()
            &&& forall|k: int| i <= k < state.len() ==> #[trigger] r[k] == state[k]
            &&& forall|x: usize| #[trigger] count_greater(r.take(i as int), x) == count_greater(avail, x)
            &&& forall|j: int| 0 <= j < i ==> #[trigger] lehmer_digit(r, j) == (c % fact((j + 1) as nat)) / fact(j as nat)
        }),
    decreases i,
{
    let r = perm_decode_from(c, i, avail, state);
    if i == 0 {
        assert forall|x: usize| #[trigger] count_greater(r.take(0), x) == count_greater(avail, x) by {
            assert(r.take(0).len() == 0);
        }
    } else {
        let f = fact((i - 1) as nat);
        lemma_digit_bound(c, i);
        let idx = (c / f) as int;
        let a = avail[idx];
        let avail2 = avail.remove(idx);
        let state2 = state.update(i - 1, a);
        let c2 = c % f;
        assert(c2 < f) by (nonlinear_arith)
            requires
                f >= 1,
                c2 == c % f,
        ;
        assert(strictly_descending(avail2)) by {
            assert forall|x: int, y: int| 0 <= x < y < avail2.len() implies avail2[x] > avail2[y] by {
                let xx = if x < idx { x } else { x + 1 };
                let yy = if y < idx { y } else { y + 1 };
                assert(avail2[x] == avail[xx] && avail2[y] == avail[yy]);
            }
        }
        lemma_perm_decode_digits(c2, (i - 1) as nat, avail2, state2);
        assert(r == perm_decode_from(c2, (i - 1) as nat, avail2, state2));
        assert(r[i - 1] == a);
        assert forall|x: usize| #[trigger] count_greater(r.take(i as int), x) == count_greater(avail, x) by {
            let t1 = r.take(((i - 1) as nat) as int);
            assert(r.take(i as int).drop_last() =~= t1);
            assert(r.take(i as int).last() == a);
            assert(count_greater(t1, x) == count_greater(avail2, x));
            assert(count_greater(r.take(i as int), x) == count_greater(t1, x) + (if a > x { 1nat } else { 0nat }));
            lemma_count_greater_remove(avail, idx, x);
        }
        assert forall|j: int| 0 <= j < i implies #[trigger] lehmer_digit(r, j) == (c % fact((j + 1) as nat)) / fact(j as nat) by {
            if j == i - 1 {
                lemma_larger_before_count(r, j, j);
                lemma_count_greater_remove(avail, idx, a);
                lemma_count_greater_prefix(avail, idx, avail.len() as int);
                assert(avail.take(avail.len() as int) =~= avail);
                lemma_small_mod(c, fact(i));
            } else {
                lemma_rising_fact((j + 2) as nat, (i - 1) as nat);
                lemma_fact_positive((j + 1) as nat);
                let q = rising((j + 2) as nat, (i - 1) as nat);
                lemma_fact_positive((i - 1) as nat);
                assert(q >= 1) by (nonlinear_arith)
                    requires
                        q * fact((j + 1) as nat) == f,
                        f >= 1,
                ;
                lemma_mod_mod(c as int, fact((j + 1) as nat) as int, q as int);
                assert(fact((j + 1) as nat) * q == f) by (nonlinear_arith)
                    requires
                        q * fact((j + 1) as nat) == f,
                ;
            }
        }
    }
}

/// The Horner value of positions i.. of a sequence whose Lehmer digits are those of c.
proof fn lemma_lehmer_value(r: Seq<usize>, c: nat, i: nat)
    requires
        1 <= i <= r.len(),
        c < fact(r.len()),
        forall|j: int| 0 <= j < r.len() ==> #[trigger] lehmer_digit(r, j) == (c % fact((j + 1) as nat)) / fact(j as nat),
    ensures
        lehmer_from(r, i) * fact((i - 1) as nat) + c % fact(i) == c,
    decreases r.len() - i,
{
    lemma_fact_positive(i);
    lemma_fact_positive((i - 1) as nat);
    if i == r.len() {
        lemma_small_mod(c, fact(i));
        assert(lehmer_from(r, i) == 0);
    } else {
        lemma_lehmer_value(r, c, i + 1);
        let lp = lehmer_from(r, i + 1);
        let fi = fact(i);
        let d = lehmer_digit(r, i as int);
        assert(fact(i + 1) == (i + 1) * fi);
        assert(fi * (i + 1) == (i + 1) * fi) by (nonlinear_arith);
        lemma_mod_breakdown(c as int, fi as int, (i + 1) as int);
        let q = (c / fi) % (i + 1);
        let r0 = c % fi;
        assert(r0 < fi) by (nonlinear_arith)
            requires
                fi >= 1,
                r0 == c % fi,
        ;
        lemma_fundamental_div_mod_converse((c % fact(i + 1)) as int, fi as int, q as int, r0 as int);
        assert(d == q);
        assert(fi == i * fact((i - 1) as nat));
        assert(lehmer_from(r, i) == (lp + d) * i);
        assert((lp + d) * i * fact((i - 1) as nat) + r0 == c) by (nonlinear_arith)
            requires
                lp * fi + c % fact(i + 1) == c,
                c % fact(i + 1) == fi * d + r0,
                fi == i * fact((i - 1) as nat),
        ;
    }
}

/// Decoding a coordinate and encoding the permutation gives the coordinate back.
pub proof fn lemma_perm_round_trip(c: nat, n: nat)
    requires
        n <= 12,
        c < fact(n),
    ensures
        perm_coord(perm_decode(c, n)) == c,
{
    let r = perm_decode(c, n);
    assert(strictly_descending(descending(n)));
    lemma_perm_decode_digits(c, n, descending(n), Seq::new(n, |k: int| 0usize));
    if n == 0 {
        assert(fact(0nat) == 1);
        assert(lehmer_from(r, 1) == 0);
    } else {
        lemma_lehmer_value(r, c, 1);
        assert(fact(0nat) == 1);
        assert(c % fact(1) == 0) by {
            assert(fact(1) == 1 * fact(0));
        }
        assert(lehmer_from(r, 1) * fact(0nat) == lehmer_from(r, 1));
    }
}

/// Sequences holding the same values count the same number of entries above any x.
proof fn lemma_count_greater_multiset(s1: Seq<usize>, s2: Seq<usize>, x: usize)
    requires
        s1.to_multiset() == s2.to_multiset(),
    ensures
        count_greater(s1, x) == count_greater(s2, x),
    decreases s1.len(),
{
    broadcast use vstd::multiset::group_multiset_axioms;
    s1.to_multiset_ensures();
    s2.to_multiset_ensures();
    if s1.len() == 0 {
        assert(s2.to_multiset().len() == 0);
        assert(s2.len() == 0);
    } else {
        let a = s1.last();
        let s1d = s1.drop_last();
        assert(s1d.push(a) =~= s1);
        vstd::seq_lib::to_multiset_build(s1d, a);
        assert(s2.to_multiset().count(a) > 0);
        assert(s2.contains(a));
        let k = choose|k: int| 0 <= k < s2.len() && s2[k] == a;
        let s2d = s2.remove(k);
        vstd::seq_lib::to_multiset_remove(s2, k);
        assert(s2d.to_multiset() =~= s1d.to_multiset());
        lemma_count_greater_multiset(s1d, s2d, x);
        lemma_count_greater_remove(s2, k, x);
    }
}

proof fn lemma_count_greater_gap(q: Seq<usize>, x: usize, y: usize)
    requires
        x < y,
        q.contains(y),
    ensures
        count_greater(q, x) >= count_greater(q, y) + 1,
    decreases q.len(),
{
    let d = q.drop_last();
    lemma_count_greater_mono(d, x, y);
    if q.last() != y {
        let k = choose|k: int| 0 <= k < q.len() && q[k] == y;
        assert(d[k] == y);
        lemma_count_greater_gap(d, x, y);
    }
}

proof fn lemma_count_greater_mono(q: Seq<usize>, x: usize, y: usize)
    requires
        x <= y,
    ensures
        count_greater(q, x) >= count_greater(q, y),
    decreases q.len(),
{
    if q.len() > 0 {
        lemma_count_greater_mono(q.drop_last(), x, y);
    }
}

/// Two sequences holding the same values with the same Lehmer digits are equal.
proof fn lemma_same_digits_same_seq(p: Seq<usize>, q: Seq<usize>)
    requires
        p.len() == q.len(),
        forall|x: usize| #[trigger] count_greater(p, x) == count_greater(q, x),
        forall|j: int| 0 <= j < p.len() ==> #[trigger] lehmer_digit(p, j) == lehmer_digit(q, j),
    ensures
        p == q,
    decreases p.len(),
{
    let n = p.len() as int;
    if n > 0 {
        let x = p[n - 1];
        let y = q[n - 1];
        lemma_larger_before_count(p, n - 1, n - 1);
        lemma_larger_before_count(q, n - 1, n - 1);
        assert(p.take(n - 1) =~= p.drop_last());
        assert(q.take(n - 1) =~= q.drop_last());
        assert(lehmer_digit(p, n - 1) == lehmer_digit(q, n - 1));
        assert(count_greater(p, x) == count_greater(p.drop_last(), x));
        assert(count_greater(q, y) == count_greater(q.drop_last(), y));
        if x < y {
            assert(q.contains(y)) by { assert(q[n - 1] == y); }
            lemma_count_greater_gap(q, x, y);
            assert(count_greater(p, x) == count_greater(q, x));
        } else if y < x {
            assert(p.contains(x)) by { assert(p[n - 1] == x); }
            lemma_count_greater_gap(p, y, x);
            assert(count_greater(p, y) == count_greater(q, y));
        }
        let pd = p.drop_last();
        let qd = q.drop_last();
        assert forall|z: usize| #[trigger] count_greater(pd, z) == count_greater(qd, z) by {
            assert(count_greater(p, z) == count_greater(q, z));
        }
        assert forall|j: int| 0 <= j < pd.len() implies #[trigger] lehmer_digit(pd, j) == lehmer_digit(qd, j) by {
            lemma_larger_before_prefix(p, j, j);
            lemma_larger_before_prefix(q, j, j);
            assert(lehmer_digit(p, j) == lehmer_digit(q, j));
        }
        lemma_same_digits_same_seq(pd, qd);
        assert(p =~= q) by {
            assert forall|k: int| 0 <= k < n implies p[k] == q[k] by {
                if k < n - 1 {
                    assert(pd[k] == qd[k]);
                }
            }
        }
    }
}

proof fn lemma_larger_before_prefix(p: Seq<usize>, i: int, j: int)
    requires
        0 <= j <= i < p.len() - 1,
    ensures
        larger_before(p.drop_last(), i, j) == larger_before(p, i, j),
    decreases j,
{
    if j > 0 {
        lemma_larger_before_prefix(p, i, j - 1);
    }
}

/// The sum over positions j < i of Lehmer digit j times j!.
pub open spec fn lehmer_low(p: Seq<usize>, i: nat) -> nat
    decreases i,
{
    if i == 0 {
        0
    } else {
        lehmer_low(p, (i - 1) as nat) + lehmer_digit(p, (i - 1) as int) * fact((i - 1) as nat)
    }
}

proof fn lemma_lehmer_low_bound(p: Seq<usize>, i: nat)
    requires
        i <= p.len(),
    ensures
        lehmer_low(p, i) < fact(i),
    decreases i,
{
    if i == 0 {
        assert(fact(0nat) == 1);
    } else {
        let j = (i - 1) as nat;
        lemma_lehmer_low_bound(p, j);
        lemma_larger_before_bound(p, j as int, j as int);
        let d = lehmer_digit(p, j as int);
        let l = lehmer_low(p, j);
        let fj = fact(j);
        assert(fact(i) == i * fj);
        assert(l + d * fj < i * fj) by (nonlinear_arith)
            requires
                l < fj,
                d <= j,
                i == j + 1,
        ;
    }
}

/// The Horner value of positions i.. times (i - 1)! plus the digits below i make the
/// coordinate.
proof fn lemma_lehmer_split(p: Seq<usize>, i: nat)
    requires
        1 <= i <= p.len(),
    ensures
        lehmer_from(p, i) * fact((i - 1) as nat) + lehmer_low(p, i) == perm_coord(p),
    decreases i,
{
    if i == 1 {
        assert(fact(0nat) == 1);
        assert(lehmer_low(p, 0) == 0);
        assert(lehmer_digit(p, 0) == 0);
        assert(lehmer_low(p, 1) == 0);
        assert(lehmer_from(p, 1) * fact(0nat) == lehmer_from(p, 1)) by (nonlinear_arith)
            requires
                fact(0nat) == 1,
        ;
    } else {
        let j = (i - 1) as nat;
        lemma_lehmer_split(p, j);
        let a = lehmer_from(p, i);
        let d = lehmer_digit(p, j as int);
        assert(lehmer_from(p, j) == (a + d) * j);
        let f2 = fact((j - 1) as nat);
        assert(fact(j) == j * f2);
        assert((a + d) * j * f2 == a * fact(j) + d * fact(j)) by (nonlinear_arith)
            requires
                fact(j) == j * f2,
        ;
    }
}

/// The Lehmer digits of a sequence whose digit j is at most j are read back from its
/// coordinate.
proof fn lemma_digits_of_coord(p: Seq<usize>, j: nat)
    requires
        j < p.len(),
        p.len() <= 12,
    ensures
        (perm_coord(p) % fact(j + 1)) / fact(j) == lehmer_digit(p, j as int),
{
    let c = perm_coord(p);
    let i = j + 1;
    lemma_fact_positive(i);
    lemma_fact_positive(j);
    lemma_lehmer_low_bound(p, i);
    lemma_lehmer_low_bound(p, j);
    let l = lehmer_low(p, i);
    if i == p.len() {
        lemma_lehmer_split(p, i);
        assert(lehmer_from(p, i) == 0);
        assert(c == l) by (nonlinear_arith)
            requires
                0 * fact(j) + l == c,
        ;
        lemma_small_mod(c, fact(i));
    } else {
        lemma_lehmer_split(p, i);
        let q = lehmer_from(p, i + 1) + lehmer_digit(p, i as int);
        assert(lehmer_from(p, i) == q * i);
        assert(fact(i) == i * fact(j));
        assert(lehmer_from(p, i) * fact(j) == q * fact(i)) by (nonlinear_arith)
            requires
                lehmer_from(p, i) == q * i,
                fact(i) == i * fact(j),
        ;
        assert(c == q * fact(i) + l);
        lemma_fundamental_div_mod_converse(c as int, fact(i) as int, q as int, l as int);
    }
    let d = lehmer_digit(p, j as int);
    let lj = lehmer_low(p, j);
    assert(l == lj + d * fact(j));
    lemma_fundamental_div_mod_converse(l as int, fact(j) as int, d as int, lj as int);
}

/// Decoding the coordinate of a sequence holding the values n - 1, ..., 0 (counted by how many
/// entries exceed each x) gives the sequence back.
pub proof fn lemma_perm_decode_of_coord_counts(p: Seq<usize>, n: nat)
    requires
        n <= 12,
        p.len() == n,
        forall|x: usize| #[trigger] count_greater(p, x) == count_greater(descending(n), x),
    ensures
        perm_decode(perm_coord(p), n) == p,
        n >= 1 ==> perm_coord(p) < fact(n),
{
    let c = perm_coord(p);
    if n >= 1 {
        lemma_lehmer_bound(p, 1);
        lemma_rising_fact(1, n);
        assert(fact(0nat) == 1);
        let r1 = rising(1, n);
        assert(r1 * fact(0nat) == r1) by (nonlinear_arith)
            requires
                fact(0nat) == 1,
        ;
    } else {
        assert(fact(0nat) == 1);
        assert(c == 0);
    }
    let q = perm_decode(c, n);
    assert(strictly_descending(descending(n)));
    lemma_perm_decode_digits(c, n, descending(n), Seq::new(n, |k: int| 0usize));
    assert(q.take(n as int) =~= q);
    assert forall|x: usize| #[trigger] count_greater(p, x) == count_greater(q, x) by {
        assert(count_greater(p, x) == count_greater(descending(n), x));
    }
    assert forall|j: int| 0 <= j < p.len() implies #[trigger] lehmer_digit(p, j) == lehmer_digit(q, j) by {
        lemma_digits_of_coord(p, j as nat);
    }
    lemma_same_digits_same_seq(p, q);
}

/// Decoding the coordinate of a permutation of 0..n gives the permutation back.
pub proof fn lemma_perm_decode_of_coord(p: Seq<usize>, n: nat)
    requires
        n <= 12,
        p.len() == n,
        p.to_multiset() == identity_perm(n).to_multiset(),
    ensures
        perm_decode(perm_coord(p), n) == p,
{
    identity_perm(n).lemma_reverse_to_multiset();
    assert(identity_perm(n).reverse() =~= descending(n));
    assert forall|x: usize| #[trigger] count_greater(p, x) == count_greater(descending(n), x) by {
        lemma_count_greater_multiset(p, descending(n), x);
    }
    lemma_perm_decode_of_coord_counts(p, n);
}

/// The entries above x after writing v at position p.
pub proof fn lemma_count_greater_update(s: Seq<usize>, p: int, v: usize, x: usize)
    requires
        0 <= p < s.len(),
    ensures
        count_greater(s.update(p, v), x) + (if s[p] > x { 1nat } else { 0nat }) == count_greater(s, x) + (if v > x { 1nat } else { 0nat }),
    decreases s.len(),
{
    let u = s.update(p, v);
    if p == s.len() - 1 {
        assert(u.drop_last() =~= s.drop_last());
    } else {
        lemma_count_greater_update(s.drop_last(), p, v, x);
        assert(u.drop_last() =~= s.drop_last().update(p, v));
    }
}

/// Exchanging entries keeps the number of entries above any x.
pub proof fn lemma_count_greater_swaps(s: Seq<usize>, sw: Seq<(int, int)>, x: usize)
    requires
        crate::rawcube::swaps_in_range(sw, s.len()),
    ensures
        count_greater(crate::rawcube::swaps_applied(s, sw), x) == count_greater(s, x),
        crate::rawcube::swaps_applied(s, sw).len() == s.len(),
    decreases sw.len(),
{
    crate::rawcube::lemma_swaps_len(s, sw);
    if sw.len() > 0 {
        assert(crate::rawcube::swaps_in_range(sw.drop_last(), s.len()));
        lemma_count_greater_swaps(s, sw.drop_last(), x);
        let t = crate::rawcube::swaps_applied(s, sw.drop_last());
        let (a, b) = sw.last();
        assert(sw[sw.len() - 1] == sw.last());
        let u = t.update(a, t[b]);
        lemma_count_greater_update(t, a, t[b], x);
        lemma_count_greater_update(u, b, t[a], x);
        assert(u[b] == t[b]);
    }
}

/// The even-parity permutation decoded from c: the permutation with coordinate 2c, with
/// positions 0 and 1 exchanged when that one is odd.
pub open spec fn perm_decode_even(c: nat, n: nat) -> Seq<usize> {
    let s = perm_decode(2 * c, n);
    if inversions(s) % 2 == 0 {
        s
    } else {
        swap_at(s, 0, 1)
    }
}

proof fn lemma_swap_first_larger_before(s: Seq<usize>, j: int, k: int)
    requires
        2 <= k <= j < s.len(),
    ensures
        larger_before(swap_at(s, 0, 1), j, k) == larger_before(s, j, k),
    decreases k,
{
    let t = swap_at(s, 0, 1);
    if k > 2 {
        lemma_swap_first_larger_before(s, j, k - 1);
        assert(t[k - 1] == s[k - 1]);
    } else {
        assert(t[0] == s[1] && t[1] == s[0] && t[j] == s[j]);
        assert(larger_before(t, j, 0) == 0 && larger_before(s, j, 0) == 0);
        assert(larger_before(t, j, 1) == (if t[j] < t[0] { 1nat } else { 0nat }));
        assert(larger_before(s, j, 1) == (if s[j] < s[0] { 1nat } else { 0nat }));
        assert(larger_before(t, j, 2) == larger_before(t, j, 1) + (if t[j] < t[1] { 1nat } else { 0nat }));
        assert(larger_before(s, j, 2) == larger_before(s, j, 1) + (if s[j] < s[1] { 1nat } else { 0nat }));
    }
}

proof fn lemma_swap_first_lehmer_from(s: Seq<usize>, i: nat)
    requires
        2 <= i,
        s.len() >= 2,
    ensures
        lehmer_from(swap_at(s, 0, 1), i) == lehmer_from(s, i),
    decreases s.len() - i,
{
    if i < s.len() {
        lemma_swap_first_lehmer_from(s, i + 1);
        lemma_swap_first_larger_before(s, i as int, i as int);
    }
}

/// Decoding an even-parity coordinate and encoding the permutation gives the coordinate back.
pub proof fn lemma_perm_even_round_trip(c: nat, n: nat)
    requires
        2 <= n <= 12,
        2 * c < fact(n),
    ensures
        perm_coord_even(perm_decode_even(c, n)) == c,
{
    let s = perm_decode(2 * c, n);
    lemma_perm_round_trip(2 * c, n);
    assert(strictly_descending(descending(n)));
    lemma_perm_decode_digits(2 * c, n, descending(n), Seq::new(n, |k: int| 0usize));
    reveal_with_fuel(fact, 3);
    let d1 = lehmer_digit(s, 1);
    assert(d1 == ((2 * c) % 2) / 1);
    assert(d1 == 0);
    let l2 = lehmer_from(s, 2);
    assert(lehmer_from(s, 1) == (l2 + d1) * 1);
    if n == 2 {
        assert(l2 == 0);
        assert(even_lehmer_from(s, 2) == 0);
        assert(c == 0);
    } else {
        let l3 = lehmer_from(s, 3);
        let d2 = lehmer_digit(s, 2);
        assert(l2 == (l3 + d2) * 2);
        lemma_even_lehmer_agrees(s, 3);
        assert(even_lehmer_from(s, 2) == even_lehmer_from(s, 3) + d2);
        assert(perm_coord_even(s) == c);
    }
    lemma_perm_decode_range(2 * c, n);
    if inversions(s) % 2 != 0 {
        let t = swap_at(s, 0, 1);
        if n == 2 {
            assert(even_lehmer_from(t, 2) == 0);
        } else {
            lemma_swap_first_lehmer_from(s, 3);
            lemma_swap_first_larger_before(s, 2, 2);
            lemma_even_lehmer_agrees(t, 3);
            lemma_even_lehmer_agrees(s, 3);
            assert(even_lehmer_from(t, 2) == even_lehmer_from(t, 3) + lehmer_digit(t, 2));
        }
    }
}

proof fn lemma_perm_decode_range(c: nat, n: nat)
    requires
        c < fact(n),
    ensures
        perm_decode(c, n).len() == n,
{
    crate::layered::lemma_perm_decode_range(c, n);
}

proof fn lemma_swap_first_smaller_after_late(p: Seq<usize>, a: int, j: int)
    requires
        2 <= a < j <= p.len(),
    ensures
        smaller_after(swap_at(p, 0, 1), a, j) == smaller_after(p, a, j),
    decreases j - a,
{
    if j > a + 1 {
        lemma_swap_first_smaller_after_late(p, a, j - 1);
        assert(swap_at(p, 0, 1)[j - 1] == p[j - 1]);
    }
    assert(swap_at(p, 0, 1)[a] == p[a]);
}

proof fn lemma_swap_first_smaller_after_early(p: Seq<usize>, j: int)
    requires
        2 <= j <= p.len(),
    ensures
        ({
            let t = swap_at(p, 0, 1);
            smaller_after(t, 0, j) + smaller_after(t, 1, j) + (if p[0] > p[1] { 1nat } else { 0nat })
                == smaller_after(p, 0, j) + smaller_after(p, 1, j) + (if p[1] > p[0] { 1nat } else { 0nat })
        }),
    decreases j,
{
    let t = swap_at(p, 0, 1);
    assert(t[0] == p[1] && t[1] == p[0]);
    if j > 2 {
        lemma_swap_first_smaller_after_early(p, j - 1);
        assert(t[j - 1] == p[j - 1]);
    } else {
        assert(smaller_after(t, 1, 2) == 0 && smaller_after(p, 1, 2) == 0);
        assert(smaller_after(t, 0, 1) == 0 && smaller_after(p, 0, 1) == 0);
    }
}

proof fn lemma_swap_first_inversions_from(p: Seq<usize>, m: int)
    requires
        2 <= m <= p.len(),
    ensures
        inversions_from_first(swap_at(p, 0, 1), m) + (if p[0] > p[1] { 1nat } else { 0nat })
            == inversions_from_first(p, m) + (if p[1] > p[0] { 1nat } else { 0nat }),
    decreases m,
{
    let t = swap_at(p, 0, 1);
    let n = p.len() as int;
    if m > 2 {
        lemma_swap_first_inversions_from(p, m - 1);
        lemma_swap_first_smaller_after_late(p, m - 1, n);
    } else {
        lemma_swap_first_smaller_after_early(p, n);
        assert(inversions_from_first(t, 0) == 0 && inversions_from_first(p, 0) == 0);
        assert(inversions_from_first(t, 1) == smaller_after(t, 0, n));
        assert(inversions_from_first(p, 1) == smaller_after(p, 0, n));
        assert(inversions_from_first(t, 2) == inversions_from_first(t, 1) + smaller_after(t, 1, n));
        assert(inversions_from_first(p, 2) == inversions_from_first(p, 1) + smaller_after(p, 1, n));
    }
}

/// Encoding an even permutation of 0..n and decoding the even-parity coordinate gives the
/// permutation back.
pub proof fn lemma_perm_even_decode_of_coord(p: Seq<usize>, n: nat)
    requires
        2 <= n <= 12,
        p.len() == n,
        p.to_multiset() == identity_perm(n).to_multiset(),
        inversions(p) % 2 == 0,
    ensures
        perm_decode_even(perm_coord_even(p), n) == p,
{
    let c = perm_coord_even(p);
    let d1 = lehmer_digit(p, 1);
    let l2 = lehmer_from(p, 2);
    lemma_larger_before_bound(p, 1, 1);
    assert(lehmer_from(p, 1) == (l2 + d1) * 1);
    if n == 2 {
        assert(l2 == 0);
        assert(c == 0);
    } else {
        lemma_even_lehmer_agrees(p, 3);
        assert(l2 == (lehmer_from(p, 3) + lehmer_digit(p, 2)) * 2);
        assert(c == lehmer_from(p, 3) + lehmer_digit(p, 2));
    }
    assert(l2 == 2 * c);
    identity_perm(n).lemma_reverse_to_multiset();
    assert(identity_perm(n).reverse() =~= descending(n));
    assert forall|x: usize| #[trigger] count_greater(p, x) == count_greater(descending(n), x) by {
        lemma_count_greater_multiset(p, descending(n), x);
    }
    lemma_perm_decode_of_coord_counts(p, n);
    if d1 == 0 {
        assert(perm_coord(p) == 2 * c);
    } else {
        let t = swap_at(p, 0, 1);
        assert(larger_before(p, 1, 0) == 0);
        assert(larger_before(p, 1, 1) == larger_before(p, 1, 0) + (if p[1] < p[0] { 1nat } else { 0nat }));
        assert(p[1] < p[0]);
        assert(larger_before(t, 1, 0) == 0);
        assert(larger_before(t, 1, 1) == larger_before(t, 1, 0) + (if t[1] < t[0] { 1nat } else { 0nat }));
        assert(t[0] == p[1] && t[1] == p[0]);
        assert(lehmer_digit(t, 1) == 0);
        lemma_swap_first_lehmer_from(p, 2);
        assert(lehmer_from(t, 1) == (lehmer_from(t, 2) + lehmer_digit(t, 1)) * 1);
        assert(perm_coord(t) == 2 * c);
        let sw = seq![(0int, 1int)];
        assert(sw.drop_last() =~= Seq::<(int, int)>::empty());
        assert(sw.last() == (0int, 1int));
        assert(crate::rawcube::swaps_applied(p, Seq::<(int, int)>::empty()) == p);
        assert(crate::rawcube::swaps_applied(p, sw) == swap_at(crate::rawcube::swaps_applied(p, sw.drop_last()), 0, 1));
        assert(crate::rawcube::swaps_applied(p, sw) == t);
        assert(crate::rawcube::swaps_in_range(sw, p.len()));
        assert forall|x: usize| #[trigger] count_greater(t, x) == count_greater(descending(n), x) by {
            lemma_count_greater_swaps(p, sw, x);
        }
        lemma_perm_decode_of_coord_counts(t, n);
        lemma_swap_first_inversions_from(p, n as int);
        assert(inversions(t) % 2 == 1);
        assert(swap_at(t, 0, 1) =~= p);
    }
}

} // verus!
