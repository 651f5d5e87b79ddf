//! Turns as 32-bit words.
//!
//! Bits 8-15 hold the LR axis (R layer 8-9, M 10-11, L 12-13, mirror 14), bits 16-23 the UD
//! axis (U 16-17, E 18-19, D 20-21, mirror 22) and bits 24-31 the FB axis (F 24-25, S 26-27,
//! B 28-29, mirror 30). A two-bit layer field holds 1 for a quarter turn, 2 for a half turn
//! and 3 for an inverse quarter turn. Coaxial layers combine by adding words, and a base
//! quarter turn is raised to a power by multiplying its word by 1, 2 or 3.
use vstd::prelude::*;
use vstd::arithmetic::div_mod::{lemma_mod_breakdown, lemma_fundamental_div_mod_converse, lemma_mod_mod, lemma_basic_div, lemma_div_by_multiple};

verus! {

#[derive(Clone, Copy, Debug, PartialEq, Eq, Structural, PartialOrd, Ord, Hash)]
pub struct Turn(pub u32);

pub const BASE_TURN: u32 = 1;
pub const DOUBLE_TURN: u32 = 2;
pub const INVERSE_TURN: u32 = 3;

pub open spec fn pow4(j: nat) -> nat
    decreases j,
{
    if j == 0 {
        1
    } else {
        4 * pow4((j - 1) as nat)
    }
}

/// The value of the two-bit field number j (bits 2j and 2j + 1) of a word.
pub open spec fn field(w: u32, j: nat) -> nat {
    (w as nat / pow4(j)) % 4
}

/// The base turns of fields j - 1 down to 0, each repeated as often as its field says.
pub open spec fn base_turns_below(w: u32, j: nat) -> Seq<Turn>
    decreases j,
{
    if j == 0 {
        Seq::empty()
    } else {
        Seq::new(field(w, (j - 1) as nat), |_i: int| Turn(pow4((j - 1) as nat) as u32))
            + base_turns_below(w, (j - 1) as nat)
    }
}

/// The decomposition of a turn into base turns, most significant field first.
pub open spec fn base_turns_of(t: Turn) -> Seq<Turn> {
    base_turns_below(t.0, 16)
}

/// A single quarter turn of one layer, or one mirror bit.
pub open spec fn is_single_field(t: Turn) -> bool {
    exists|j: nat| j < 16 && t.0 == pow4(j)
}

pub proof fn lemma_pow4_positive(j: nat)
    ensures
        pow4(j) >= 1,
    decreases j,
{
    if j > 0 {
        lemma_pow4_positive((j - 1) as nat);
    }
}

proof fn lemma_pow4_values()
    ensures
        pow4(15) == 0x4000_0000,
        pow4(16) == 0x1_0000_0000,
{
    reveal_with_fuel(pow4, 17);
}

pub proof fn lemma_pow4_monotone(i: nat, j: nat)
    requires
        i <= j,
    ensures
        pow4(i) <= pow4(j),
    decreases j,
{
    if i < j {
        lemma_pow4_monotone(i, (j - 1) as nat);
    }
}

/// Taking the rest of a word below field j and splitting off field j - 1.
proof fn lemma_field_step(w: nat, j: nat)
    requires
        j >= 1,
    ensures
        (w % pow4(j)) / pow4((j - 1) as nat) == (w / pow4((j - 1) as nat)) % 4,
        (w % pow4(j)) % pow4((j - 1) as nat) == w % pow4((j - 1) as nat),
{
    let b = pow4((j - 1) as nat);
    lemma_pow4_positive((j - 1) as nat);
    assert(pow4(j) == b * 4);
    lemma_mod_breakdown(w as int, b as int, 4);
    lemma_fundamental_div_mod_converse(
        (w % pow4(j)) as int,
        b as int,
        ((w / b) % 4) as int,
        (w % b) as int,
    );
    lemma_mod_mod(w as int, b as int, 4);
}

impl Turn {
    /// The base quarter turn of the R layer.
    pub fn right() -> (t: Turn)
        ensures
            t.0 == 0x100,
    {
        Turn(0x100)
    }

    /// The base quarter turn of the M layer.
    pub fn middle() -> (t: Turn)
        ensures
            t.0 == 0x400,
    {
        Turn(0x400)
    }

    /// The base quarter turn of the L layer.
    pub fn left() -> (t: Turn)
        ensures
            t.0 == 0x1000,
    {
        Turn(0x1000)
    }

    /// The base quarter turn of the LR mirror bit.
    pub fn lr_mirror() -> (t: Turn)
        ensures
            t.0 == 0x4000,
    {
        Turn(0x4000)
    }

    /// The base quarter turn of the U layer.
    pub fn up() -> (t: Turn)
        ensures
            t.0 == 0x1_0000,
    {
        Turn(0x1_0000)
    }

    /// The base quarter turn of the E layer.
    pub fn equator() -> (t: Turn)
        ensures
            t.0 == 0x4_0000,
    {
        Turn(0x4_0000)
    }

    /// The base quarter turn of the D layer.
    pub fn down() -> (t: Turn)
        ensures
            t.0 == 0x10_0000,
    {
        Turn(0x10_0000)
    }

    /// The base quarter turn of the UD mirror bit.
    pub fn ud_mirror() -> (t: Turn)
        ensures
            t.0 == 0x40_0000,
    {
        Turn(0x40_0000)
    }

    /// The base quarter turn of the F layer.
    pub fn front() -> (t: Turn)
        ensures
            t.0 == 0x100_0000,
    {
        Turn(0x100_0000)
    }

    /// The base quarter turn of the S layer.
    pub fn slice() -> (t: Turn)
        ensures
            t.0 == 0x400_0000,
    {
        Turn(0x400_0000)
    }

    /// The base quarter turn of the B layer.
    pub fn back() -> (t: Turn)
        ensures
            t.0 == 0x1000_0000,
    {
        Turn(0x1000_0000)
    }

    /// The base quarter turn of the FB mirror bit.
    pub fn fb_mirror() -> (t: Turn)
        ensures
            t.0 == 0x4000_0000,
    {
        Turn(0x4000_0000)
    }

                                                
    /// The base turns this turn is made of: for each two-bit field from the most significant
    /// down, the field's base turn repeated as often as the field's value.
    pub fn to_base_turns(&self) -> (turns: Vec<Turn>)
        ensures
            turns@ == base_turns_of(*self),
    {
        let ghost w = self.0;
        let mut turns: Vec<Turn> = Vec::new();
        let mut base: u32 = 0x4000_0000;
        let mut turn: u32 = self.0;
        let mut j: usize = 16;
        proof {
            lemma_pow4_values();
            assert(turn as nat == (w as nat) % pow4(16));
        }
        while base > 0
            invariant
                j <= 16,
                j >= 1 ==> base as nat == pow4((j - 1) as nat),
                (base == 0) == (j == 0),
                w == self.0,
                turn as nat == (w as nat) % pow4(j as nat),
                turns@ + base_turns_below(w, j as nat) == base_turns_below(w, 16),
            decreases j,
        {
            proof {
                lemma_field_step(w as nat, j as nat);
                lemma_pow4_positive((j - 1) as nat);
            }
            let count = turn / base;
            let ghost before = turns@;
            let mut k: u32 = 0;
            while k < count
                invariant
                    k <= count,
                    turns@ == before + Seq::new(k as nat, |_i: int| Turn(base)),
                decreases count - k,
            {
                turns.push(Turn(base));
                k = k + 1;
                proof {
                    assert(turns@ =~= before + Seq::new(k as nat, |_i: int| Turn(base)));
                }
            }
            proof {
                let jm = (j - 1) as nat;
                assert(count as nat == field(w, jm));
                assert(base_turns_below(w, j as nat) == Seq::new(field(w, jm), |_i: int| Turn(pow4(jm) as u32)) + base_turns_below(w, jm));
                assert(Seq::new(k as nat, |_i: int| Turn(base)) =~= Seq::new(field(w, jm), |_i: int| Turn(pow4(jm) as u32)));
                assert(turns@ + base_turns_below(w, jm) =~= before + base_turns_below(w, j as nat));
            }
            turn = turn % base;
            let next = base / 4;
            proof {
                if j >= 2 {
                    assert(pow4((j - 1) as nat) == 4 * pow4((j - 2) as nat));
                } else {
                    assert(base == 1);
                }
            }
            base = next;
            j = j - 1;
        }
        proof {
            assert(base_turns_below(w, 0) =~= Seq::<Turn>::empty());
            assert(turns@ =~= turns@ + base_turns_below(w, 0));
        }
        turns
    }
}


impl Turn {
    /// Whether the turn is a single quarter turn of one layer (or a single mirror bit).
    pub fn is_base_move(&self) -> (r: bool)
        ensures
            r == is_single_field(*self),
    {
        let mut base: u32 = 1;
        let mut j: usize = 0;
        proof {
            lemma_pow4_values();
        }
        while j < 16
            invariant
                j <= 16,
                j < 16 ==> base as nat == pow4(j as nat),
                forall|i: nat| i < j ==> self.0 != pow4(i),
            decreases 16 - j,
        {
            if self.0 == base {
                return true;
            }
            if j < 15 {
                proof {
                    lemma_pow4_monotone((j + 1) as nat, 15);
                    lemma_pow4_values();
                    assert(pow4((j + 1) as nat) == 4 * pow4(j as nat));
                }
                base = base * 4;
            }
            j = j + 1;
        }
        false
    }

    /// The quarter turns of the six outer layers: R, L, U, D, F, B.
    pub fn get_base_outer_layer_turns() -> (turns: Vec<Turn>)
        ensures
            turns@ == base_outer_layer_turns(),
    {
        let turns = vec![Turn::right(), Turn::left(), Turn::up(), Turn::down(), Turn::front(), Turn::back()];
        proof {
            assert(turns@ =~= base_outer_layer_turns());
        }
        turns
    }

    /// The quarter turns of all nine layers: R, M, L, U, E, D, F, S, B.
    pub fn get_base_layer_turns() -> (turns: Vec<Turn>)
        ensures
            turns@ == base_layer_turns(),
    {
        let turns = vec![
            Turn::right(),
            Turn::middle(),
            Turn::left(),
            Turn::up(),
            Turn::equator(),
            Turn::down(),
            Turn::front(),
            Turn::slice(),
            Turn::back(),
        ];
        proof {
            assert(turns@ =~= base_layer_turns());
        }
        turns
    }

    /// The eighteen outer-layer turns: each outer layer by a quarter, a half and an inverse
    /// quarter turn.
    pub fn get_outer_layer_turns() -> (turns: Vec<Turn>)
        ensures
            turns@ == outer_layer_turns(),
    {
        let mut turns: Vec<Turn> = Vec::new();
        let layers = Turn::get_base_outer_layer_turns();
        let directions: [u32; 3] = [BASE_TURN, DOUBLE_TURN, INVERSE_TURN];
        let mut i: usize = 0;
        while i < layers.len()
            invariant
                layers@ == base_outer_layer_turns(),
                directions@ == seq![1u32, 2, 3],
                i <= 6,
                turns@.len() == 3 * i,
                forall|k: int| 0 <= k < 3 * i ==> #[trigger] turns@[k] == outer_layer_turns()[k],
            decreases 6 - i,
        {
            let layer = layers[i];
            let mut d: usize = 0;
            while d < 3
                invariant
                    layers@ == base_outer_layer_turns(),
                    directions@ == seq![1u32, 2, 3],
                    layer == base_outer_layer_turns()[i as int],
                    i < 6,
                    d <= 3,
                    turns@.len() == 3 * i + d,
                    forall|k: int| 0 <= k < 3 * i + d ==> #[trigger] turns@[k] == outer_layer_turns()[k],
                decreases 3 - d,
            {
                let direction = directions[d];
                assert(direction <= 3);
                assert(layer.0 <= 0x1000_0000);
                let t = Turn(layer.0 * direction);
                proof {
                    let k = 3 * i + d;
                    assert(k / 3 == i && k % 3 == d);
                }
                turns.push(t);
                d = d + 1;
            }
            i = i + 1;
        }
        turns
    }
}

pub open spec fn base_outer_layer_turns() -> Seq<Turn> {
    seq![Turn(0x100), Turn(0x1000), Turn(0x1_0000), Turn(0x10_0000), Turn(0x100_0000), Turn(0x1000_0000)]
}

pub open spec fn base_layer_turns() -> Seq<Turn> {
    seq![
        Turn(0x100),
        Turn(0x400),
        Turn(0x1000),
        Turn(0x1_0000),
        Turn(0x4_0000),
        Turn(0x10_0000),
        Turn(0x100_0000),
        Turn(0x400_0000),
        Turn(0x1000_0000),
    ]
}

/// Each outer layer in the order R, L, U, D, F, B, turned by 1, 2 and 3 quarters.
pub open spec fn outer_layer_turns() -> Seq<Turn> {
    Seq::new(18, |k: int| Turn((base_outer_layer_turns()[k / 3].0 * ((k % 3) + 1)) as u32))
}


proof fn lemma_pow4_add(a: nat, b: nat)
    ensures
        pow4(a + b) == pow4(a) * pow4(b),
    decreases a,
{
    if a > 0 {
        lemma_pow4_add((a - 1) as nat, b);
        assert(pow4(a + b) == 4 * pow4((a - 1 + b) as nat));
        assert(4 * (pow4((a - 1) as nat) * pow4(b)) == (4 * pow4((a - 1) as nat)) * pow4(b)) by (nonlinear_arith);
        assert(pow4(a) == 4 * pow4((a - 1) as nat));
    } else {
        assert(pow4(a) == 1);
        assert(a + b == b);
    }
}

proof fn lemma_field_of_single(j: nat, i: nat)
    requires
        j < 16,
    ensures
        field(pow4(j) as u32, i) == (if i == j { 1nat } else { 0nat }),
{
    lemma_pow4_values();
    lemma_pow4_monotone(j, 15);
    lemma_pow4_positive(i);
    lemma_pow4_positive(j);
    let w = pow4(j);
    assert((w as u32) as nat == w);
    if i > j {
        lemma_pow4_monotone(j + 1, i);
        assert(pow4(j + 1) == 4 * w);
        lemma_basic_div(w as int, pow4(i) as int);
    } else if i == j {
        lemma_div_by_multiple(1, w as int);
    } else {
        let k = (j - i) as nat;
        lemma_pow4_add(k, i);
        assert(j == k + i);
        lemma_div_by_multiple(pow4(k) as int, pow4(i) as int);
        assert(pow4(k) == 4 * pow4((k - 1) as nat));
    }
}

proof fn lemma_base_turns_below_single(j: nat, k: nat)
    requires
        j < 16,
        k <= 16,
    ensures
        base_turns_below(pow4(j) as u32, k) == (if j < k { seq![Turn(pow4(j) as u32)] } else { Seq::<Turn>::empty() }),
    decreases k,
{
    if k > 0 {
        let w = pow4(j) as u32;
        lemma_base_turns_below_single(j, (k - 1) as nat);
        lemma_field_of_single(j, (k - 1) as nat);
        let head = Seq::new(field(w, (k - 1) as nat), |_i: int| Turn(pow4((k - 1) as nat) as u32));
        if j == k - 1 {
            assert(head =~= seq![Turn(pow4(j) as u32)]);
            assert(head + Seq::<Turn>::empty() =~= seq![Turn(pow4(j) as u32)]);
        } else {
            assert(head =~= Seq::<Turn>::empty());
            assert(head + base_turns_below(w, (k - 1) as nat) =~= base_turns_below(w, (k - 1) as nat));
        }
    }
}

/// A turn of a single field decomposes into itself.
pub proof fn lemma_base_turns_of_single(t: Turn)
    requires
        is_single_field(t),
    ensures
        base_turns_of(t) == seq![t],
{
    let j = choose|j: nat| j < 16 && t.0 == pow4(j);
    lemma_base_turns_below_single(j, 16);
    lemma_pow4_values();
    lemma_pow4_monotone(j, 15);
    assert(t == Turn(pow4(j) as u32));
}


/// Every quarter turn of a single layer occupies a single field.
pub proof fn lemma_layer_turns_single(t: Turn)
    requires
        crate::rawcube::is_layer_turn(t),
    ensures
        is_single_field(t),
{
    reveal_with_fuel(pow4, 15);
    if t.0 == 0x100 {
        assert(t.0 == pow4(4));
    } else if t.0 == 0x400 {
        assert(t.0 == pow4(5));
    } else if t.0 == 0x1000 {
        assert(t.0 == pow4(6));
    } else if t.0 == 0x1_0000 {
        assert(t.0 == pow4(8));
    } else if t.0 == 0x4_0000 {
        assert(t.0 == pow4(9));
    } else if t.0 == 0x10_0000 {
        assert(t.0 == pow4(10));
    } else if t.0 == 0x100_0000 {
        assert(t.0 == pow4(12));
    } else if t.0 == 0x400_0000 {
        assert(t.0 == pow4(13));
    } else {
        assert(t.0 == pow4(14));
    }
}

proof fn lemma_field_of_multiple(j: nat, k: nat, i: nat)
    requires
        j <= 14,
        1 <= k <= 3,
    ensures
        field((k * pow4(j)) as u32, i) == (if i == j { k } else { 0nat }),
{
    lemma_pow4_values();
    lemma_pow4_monotone(j + 1, 15);
    lemma_pow4_positive(i);
    lemma_pow4_positive(j);
    let w = pow4(j);
    assert(pow4(j + 1) == 4 * w);
    assert(k * w < 4 * w) by (nonlinear_arith)
        requires
            k <= 3,
            w >= 1,
    ;
    assert(((k * w) as u32) as nat == k * w);
    if i > j {
        lemma_pow4_monotone(j + 1, i);
        lemma_basic_div((k * w) as int, pow4(i) as int);
    } else if i == j {
        lemma_div_by_multiple(k as int, w as int);
    } else {
        let q = (j - i) as nat;
        lemma_pow4_add(q, i);
        assert(j == q + i);
        assert(k * w == (k * pow4(q)) * pow4(i)) by (nonlinear_arith)
            requires
                w == pow4(q) * pow4(i),
        ;
        lemma_pow4_positive(q);
        lemma_div_by_multiple((k * pow4(q)) as int, pow4(i) as int);
        assert(pow4(q) == 4 * pow4((q - 1) as nat));
        let r = k * pow4((q - 1) as nat);
        assert(k * pow4(q) == r * 4) by (nonlinear_arith)
            requires
                pow4(q) == 4 * pow4((q - 1) as nat),
                r == k * pow4((q - 1) as nat),
        ;
        vstd::arithmetic::div_mod::lemma_mod_multiples_basic(r as int, 4);
    }
}

proof fn lemma_base_turns_below_multiple(j: nat, k: nat, n: nat)
    requires
        j <= 14,
        1 <= k <= 3,
        n <= 16,
    ensures
        base_turns_below((k * pow4(j)) as u32, n) == (if j < n { Seq::new(k, |_i: int| Turn(pow4(j) as u32)) } else { Seq::<Turn>::empty() }),
    decreases n,
{
    if n > 0 {
        let w = (k * pow4(j)) as u32;
        lemma_base_turns_below_multiple(j, k, (n - 1) as nat);
        lemma_field_of_multiple(j, k, (n - 1) as nat);
        let head = Seq::new(field(w, (n - 1) as nat), |_i: int| Turn(pow4((n - 1) as nat) as u32));
        if j == n - 1 {
            assert(head =~= Seq::new(k, |_i: int| Turn(pow4(j) as u32)));
            assert(head + Seq::<Turn>::empty() =~= head);
        } else {
            assert(head =~= Seq::<Turn>::empty());
            assert(head + base_turns_below(w, (n - 1) as nat) =~= base_turns_below(w, (n - 1) as nat));
        }
    }
}

/// Two or three quarter turns of one layer, as one word, decompose into that many quarter
/// turns of the layer.
pub proof fn lemma_base_turns_of_power(t: Turn, k: nat)
    requires
        crate::rawcube::is_layer_turn(t),
        1 <= k <= 3,
    ensures
        base_turns_of(Turn((k * t.0) as u32)) == Seq::new(k, |_i: int| t),
{
    reveal_with_fuel(pow4, 15);
    let j: nat = if t.0 == 0x100 {
        4
    } else if t.0 == 0x400 {
        5
    } else if t.0 == 0x1000 {
        6
    } else if t.0 == 0x1_0000 {
        8
    } else if t.0 == 0x4_0000 {
        9
    } else if t.0 == 0x10_0000 {
        10
    } else if t.0 == 0x100_0000 {
        12
    } else if t.0 == 0x400_0000 {
        13
    } else {
        14
    };
    assert(t.0 == pow4(j));
    lemma_base_turns_below_multiple(j, k, 16);
    assert(Seq::new(k, |_i: int| Turn(pow4(j) as u32)) =~= Seq::new(k, |_i: int| t));
}

} // verus!
