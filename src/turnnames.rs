//! Turn names in standard notation and algorithm strings.
//!
//! Upper-case letters name single layers, lower-case letters r, l, u, d, f, b wide turns and
//! x, y, z rotations; a name is a letter alone, or followed by `2` or `'`. The layers M, L, D,
//! B and the wide turns l, d, b turn opposite to their word's quarter turn, so for them the
//! bare letter names three quarter turns of the word and the primed letter one.
use vstd::prelude::*;
use vstd::string::*;
use crate::turndef::{Turn, base_turns_of};

verus! {

pub open spec fn letters() -> Seq<char> {
    seq!['R', 'M', 'L', 'U', 'E', 'D', 'F', 'S', 'B', 'x', 'y', 'z', 'r', 'l', 'u', 'd', 'f', 'b']
}

/// The word of a letter's quarter turn: the sum of its layers' words (x = R + M + L,
/// r = R + M, l = L + M, and so on).
pub open spec fn letter_word(c: char) -> u32 {
    if c == 'R' {
        0x100
    } else if c == 'M' {
        0x400
    } else if c == 'L' {
        0x1000
    } else if c == 'U' {
        0x1_0000
    } else if c == 'E' {
        0x4_0000
    } else if c == 'D' {
        0x10_0000
    } else if c == 'F' {
        0x100_0000
    } else if c == 'S' {
        0x400_0000
    } else if c == 'B' {
        0x1000_0000
    } else if c == 'x' {
        0x1500
    } else if c == 'y' {
        0x15_0000
    } else if c == 'z' {
        0x1500_0000
    } else if c == 'r' {
        0x500
    } else if c == 'l' {
        0x1400
    } else if c == 'u' {
        0x5_0000
    } else if c == 'd' {
        0x14_0000
    } else if c == 'f' {
        0x500_0000
    } else {
        0x1400_0000
    }
}

/// Whether the bare letter names three quarter turns of its word.
pub open spec fn letter_inverted(c: char) -> bool {
    c == 'M' || c == 'L' || c == 'D' || c == 'B' || c == 'l' || c == 'd' || c == 'b'
}

/// The name of k quarter turns (k in 1..=3) of a letter's word.
pub open spec fn multiple_name(c: char, k: nat) -> Seq<char> {
    if k == 2 {
        seq![c, '2']
    } else if (k == 1) == letter_inverted(c) {
        seq![c, '\'']
    } else {
        seq![c]
    }
}

pub open spec fn mirror_names() -> Seq<Seq<char>> {
    seq![
        seq!['l', 'r', '_', 'm', 'i', 'r', 'r', 'o', 'r'],
        seq!['u', 'd', '_', 'm', 'i', 'r', 'r', 'o', 'r'],
        seq!['f', 'b', '_', 'm', 'i', 'r', 'r', 'o', 'r'],
    ]
}

/// Every named turn: each letter by 1, 2 and 3 quarter turns, then the three mirrors.
pub open spec fn named_turns() -> Seq<Turn> {
    Seq::new(54, |i: int| Turn((letter_word(letters()[i / 3]) * ((i % 3) + 1)) as u32))
        + seq![Turn(0x4000), Turn(0x40_0000), Turn(0x4000_0000)]
}

/// The names of `named_turns()`, in the same order.
pub open spec fn turn_names() -> Seq<Seq<char>> {
    Seq::new(54, |i: int| multiple_name(letters()[i / 3], ((i % 3) + 1) as nat)) + mirror_names()
}

/// The turn of the first entry named s, from entry i on.
pub open spec fn turn_named_from(s: Seq<char>, i: nat) -> Option<Turn>
    decreases 57 - i,
{
    if i >= 57 {
        None
    } else if turn_names()[i as int] == s {
        Some(named_turns()[i as int])
    } else {
        turn_named_from(s, i + 1)
    }
}

/// The turn a name stands for, if any.
pub open spec fn turn_named(s: Seq<char>) -> Option<Turn> {
    turn_named_from(s, 0)
}

/// The name of the first entry holding turn t, from entry i on.
pub open spec fn name_of_from(t: Turn, i: nat) -> Option<Seq<char>>
    decreases 57 - i,
{
    if i >= 57 {
        None
    } else if named_turns()[i as int] == t {
        Some(turn_names()[i as int])
    } else {
        name_of_from(t, i + 1)
    }
}

/// The name of a turn, if it has one.
pub open spec fn name_of(t: Turn) -> Option<Seq<char>> {
    name_of_from(t, 0)
}

fn letter_list() -> (r: Vec<char>)
    ensures
        r@ == letters(),
{
    let r = vec!['R', 'M', 'L', 'U', 'E', 'D', 'F', 'S', 'B', 'x', 'y', 'z', 'r', 'l', 'u', 'd', 'f', 'b'];
    proof {
        assert(r@ =~= letters());
    }
    r
}

fn letter_word_of(c: char) -> (w: u32)
    ensures
        w == letter_word(c),
        w <= 0x1500_0000,
{
    if c == 'R' {
        0x100
    } else if c == 'M' {
        0x400
    } else if c == 'L' {
        0x1000
    } else if c == 'U' {
        0x1_0000
    } else if c == 'E' {
        0x4_0000
    } else if c == 'D' {
        0x10_0000
    } else if c == 'F' {
        0x100_0000
    } else if c == 'S' {
        0x400_0000
    } else if c == 'B' {
        0x1000_0000
    } else if c == 'x' {
        0x1500
    } else if c == 'y' {
        0x15_0000
    } else if c == 'z' {
        0x1500_0000
    } else if c == 'r' {
        0x500
    } else if c == 'l' {
        0x1400
    } else if c == 'u' {
        0x5_0000
    } else if c == 'd' {
        0x14_0000
    } else if c == 'f' {
        0x500_0000
    } else {
        0x1400_0000
    }
}

fn letter_is_inverted(c: char) -> (r: bool)
    ensures
        r == letter_inverted(c),
{
    c == 'M' || c == 'L' || c == 'D' || c == 'B' || c == 'l' || c == 'd' || c == 'b'
}

/// The turn of entry i of the name table.
fn named_turn(i: usize) -> (t: Turn)
    requires
        i < 57,
    ensures
        t == named_turns()[i as int],
{
    if i < 54 {
        let letters = letter_list();
        let w = letter_word_of(letters[i / 3]);
        let k = (i % 3) as u32 + 1;
        Turn(w * k)
    } else if i == 54 {
        Turn(0x4000)
    } else if i == 55 {
        Turn(0x40_0000)
    } else {
        Turn(0x4000_0000)
    }
}

/// The name of entry i of the name table, as characters.
fn name_chars(i: usize) -> (name: Vec<char>)
    requires
        i < 57,
    ensures
        name@ == turn_names()[i as int],
{
    if i < 54 {
        let letters = letter_list();
        let c = letters[i / 3];
        let k = i % 3 + 1;
        let name = if k == 2 {
            vec![c, '2']
        } else if (k == 1) == letter_is_inverted(c) {
            vec![c, '\'']
        } else {
            vec![c]
        };
        proof {
            assert(name@ =~= multiple_name(c, k as nat));
        }
        name
    } else {
        let name = if i == 54 {
            vec!['l', 'r', '_', 'm', 'i', 'r', 'r', 'o', 'r']
        } else if i == 55 {
            vec!['u', 'd', '_', 'm', 'i', 'r', 'r', 'o', 'r']
        } else {
            vec!['f', 'b', '_', 'm', 'i', 'r', 'r', 'o', 'r']
        };
        proof {
            assert(name@ =~= turn_names()[i as int]);
        }
        name
    }
}

fn chars_equal(s: &str, chars: &Vec<char>) -> (r: bool)
    ensures
        r == (s@ == chars@),
{
    let n = s.unicode_len();
    if n != chars.len() {
        return false;
    }
    let mut i: usize = 0;
    while i < n
        invariant
            n == s@.len() == chars@.len(),
            i <= n,
            forall|k: int| 0 <= k < i ==> s@[k] == chars@[k],
        decreases n - i,
    {
        if s.get_char(i) != chars[i] {
            return false;
        }
        i = i + 1;
    }
    proof {
        assert(s@ =~= chars@);
    }
    true
}

fn letter_text(c: char) -> (r: &'static str)
    requires
        letters().contains(c),
    ensures
        r@ == seq![c],
{
    if c == 'R' {
        proof { reveal_strlit("R"); }
        "R"
    } else if c == 'M' {
        proof { reveal_strlit("M"); }
        "M"
    } else if c == 'L' {
        proof { reveal_strlit("L"); }
        "L"
    } else if c == 'U' {
        proof { reveal_strlit("U"); }
        "U"
    } else if c == 'E' {
        proof { reveal_strlit("E"); }
        "E"
    } else if c == 'D' {
        proof { reveal_strlit("D"); }
        "D"
    } else if c == 'F' {
        proof { reveal_strlit("F"); }
        "F"
    } else if c == 'S' {
        proof { reveal_strlit("S"); }
        "S"
    } else if c == 'B' {
        proof { reveal_strlit("B"); }
        "B"
    } else if c == 'x' {
        proof { reveal_strlit("x"); }
        "x"
    } else if c == 'y' {
        proof { reveal_strlit("y"); }
        "y"
    } else if c == 'z' {
        proof { reveal_strlit("z"); }
        "z"
    } else if c == 'r' {
        proof { reveal_strlit("r"); }
        "r"
    } else if c == 'l' {
        proof { reveal_strlit("l"); }
        "l"
    } else if c == 'u' {
        proof { reveal_strlit("u"); }
        "u"
    } else if c == 'd' {
        proof { reveal_strlit("d"); }
        "d"
    } else if c == 'f' {
        proof { reveal_strlit("f"); }
        "f"
    } else {
        proof {
            reveal_strlit("b");
            let j = choose|j: int| 0 <= j < 18 && letters()[j] == c;
        }
        "b"
    }
}

/// The name of entry i of the name table, as a string.
fn name_string(i: usize) -> (name: String)
    requires
        i < 57,
    ensures
        name@ == turn_names()[i as int],
{
    if i < 54 {
        let letters = letter_list();
        let c = letters[i / 3];
        let k = i % 3 + 1;
        proof {
            assert(letters@[(i / 3) as int] == c);
        }
        let mut name = String::from_str(letter_text(c));
        if k == 2 {
            proof { reveal_strlit("2"); }
            name.append("2");
        } else if (k == 1) == letter_is_inverted(c) {
            proof { reveal_strlit("'"); }
            name.append("'");
        }
        proof {
            assert(name@ =~= multiple_name(c, k as nat));
        }
        name
    } else if i == 54 {
        proof { reveal_strlit("lr_mirror"); }
        let name = String::from_str("lr_mirror");
        proof {
            assert(name@ =~= turn_names()[i as int]);
        }
        name
    } else if i == 55 {
        proof { reveal_strlit("ud_mirror"); }
        let name = String::from_str("ud_mirror");
        proof {
            assert(name@ =~= turn_names()[i as int]);
        }
        name
    } else {
        proof { reveal_strlit("fb_mirror"); }
        let name = String::from_str("fb_mirror");
        proof {
            assert(name@ =~= turn_names()[i as int]);
        }
        name
    }
}

impl Turn {
    /// The turn with the given name, or `None` for a name that is not a turn.
    pub fn from_name(turn_name: &str) -> (turn: Option<Turn>)
        ensures
            turn == turn_named(turn_name@),
    {
        let mut i: usize = 0;
        while i < 57
            invariant
                i <= 57,
                turn_named(turn_name@) == turn_named_from(turn_name@, i as nat),
            decreases 57 - i,
        {
            let name = name_chars(i);
            if chars_equal(turn_name, &name) {
                return Some(named_turn(i));
            }
            i = i + 1;
        }
        None
    }

    /// The name of the turn, or `None` for a turn that has none.
    pub fn to_name(&self) -> (name: Option<String>)
        ensures
            match name {
                Some(s) => name_of(*self) == Some(s@),
                None => name_of(*self) is None,
            },
    {
        let mut i: usize = 0;
        while i < 57
            invariant
                i <= 57,
                name_of(*self) == name_of_from(*self, i as nat),
            decreases 57 - i,
        {
            if named_turn(i) == *self {
                return Some(name_string(i));
            }
            i = i + 1;
        }
        None
    }

    /// Every named turn, in the order of the name table.
    pub fn get_all_turns() -> (turns: Vec<Turn>)
        ensures
            turns@ == named_turns(),
    {
        let mut turns: Vec<Turn> = Vec::new();
        let mut i: usize = 0;
        while i < 57
            invariant
                i <= 57,
                turns@ == named_turns().take(i as int),
            decreases 57 - i,
        {
            turns.push(named_turn(i));
            i = i + 1;
            proof {
                assert(turns@ =~= named_turns().take(i as int));
            }
        }
        proof {
            assert(named_turns().take(57) =~= named_turns());
        }
        turns
    }
}

/// The base turns of each turn, in order.
pub open spec fn all_base_turns(ts: Seq<Turn>) -> Seq<Turn>
    decreases ts.len(),
{
    if ts.len() == 0 {
        Seq::empty()
    } else {
        all_base_turns(ts.drop_last()) + base_turns_of(ts.last())
    }
}

/// The names of the turns joined by single spaces.
pub open spec fn algorithm_text(ts: Seq<Turn>) -> Seq<char>
    decreases ts.len(),
{
    if ts.len() == 0 {
        Seq::empty()
    } else if ts.len() == 1 {
        name_of(ts[0]).unwrap()
    } else {
        algorithm_text(ts.drop_last()) + seq![' '] + name_of(ts.last()).unwrap()
    }
}

/// Operations on a sequence of turns.
pub trait TurnVec {
    spec fn turns_view(&self) -> Seq<Turn>;

    fn to_base_turns(&self) -> (turns: Vec<Turn>)
        ensures
            turns@ == all_base_turns(self.turns_view()),
    ;

    fn to_algorithm_string(&self) -> (alg: String)
        requires
            forall|i: int| 0 <= i < self.turns_view().len() ==> name_of(#[trigger] self.turns_view()[i]) is Some,
        ensures
            alg@ == algorithm_text(self.turns_view()),
    ;
}

impl TurnVec for Vec<Turn> {
    open spec fn turns_view(&self) -> Seq<Turn> {
        self@
    }

    fn to_base_turns(&self) -> (turns: Vec<Turn>) {
        let mut turns: Vec<Turn> = Vec::new();
        let mut i: usize = 0;
        while i < self.len()
            invariant
                i <= self@.len(),
                turns@ == all_base_turns(self@.take(i as int)),
            decreases self@.len() - i,
        {
            let mut parts = self[i].to_base_turns();
            proof {
                assert(self@.take(i + 1).drop_last() =~= self@.take(i as int));
                assert(self@.take(i + 1).last() == self@[i as int]);
            }
            turns.append(&mut parts);
            i = i + 1;
        }
        proof {
            assert(self@.take(i as int) =~= self@);
        }
        turns
    }

    fn to_algorithm_string(&self) -> (alg: String) {
        proof {
            assert forall|k: int| 0 <= k < self@.len() implies name_of(#[trigger] self@[k]) is Some by {
                assert(self.turns_view()[k] == self@[k]);
            }
        }
        let mut alg = String::new();
        let mut i: usize = 0;
        while i < self.len()
            invariant
                i <= self@.len(),
                forall|k: int| 0 <= k < self@.len() ==> name_of(#[trigger] self@[k]) is Some,
                alg@ == algorithm_text(self@.take(i as int)),
            decreases self@.len() - i,
        {
            proof {
                assert(self@.take(i + 1).drop_last() =~= self@.take(i as int));
                assert(self@.take(i + 1).last() == self@[i as int]);
                assert(name_of(self@[i as int]) is Some);
            }
            let name = self[i].to_name();
            match name {
                Some(n) => {
                    if i > 0 {
                        proof { reveal_strlit(" "); }
                        alg.append(" ");
                    }
                    alg.append(n.as_str());
                    proof {
                        if i == 0 {
                            assert(alg@ =~= algorithm_text(self@.take(1)));
                        } else {
                            assert(alg@ =~= algorithm_text(self@.take(i + 1)));
                        }
                    }
                },
                None => {},
            }
            i = i + 1;
        }
        proof {
            assert(self@.take(i as int) =~= self@);
        }
        alg
    }
}

/// The length of the word at the start of s: the characters before the first space.
pub open spec fn word_len(s: Seq<char>) -> nat
    decreases s.len(),
{
    if s.len() == 0 || s[0] == ' ' {
        0
    } else {
        1 + word_len(s.drop_first())
    }
}

/// The words of s: its maximal runs of characters other than the space.
pub open spec fn split_words(s: Seq<char>) -> Seq<Seq<char>>
    decreases s.len() via split_words_decreases
{
    if s.len() == 0 {
        Seq::empty()
    } else if s[0] == ' ' {
        split_words(s.drop_first())
    } else {
        seq![s.take(word_len(s) as int)] + split_words(s.skip(word_len(s) as int))
    }
}

proof fn lemma_word_len_bound(s: Seq<char>)
    ensures
        word_len(s) <= s.len(),
        s.len() > 0 && s[0] != ' ' ==> word_len(s) >= 1,
    decreases s.len(),
{
    if s.len() > 0 && s[0] != ' ' {
        lemma_word_len_bound(s.drop_first());
    }
}

#[via_fn]
proof fn split_words_decreases(s: Seq<char>) {
    lemma_word_len_bound(s);
}

/// The turns named by the words, or `None` if a word names no turn.
pub open spec fn turns_named(words: Seq<Seq<char>>) -> Option<Seq<Turn>>
    decreases words.len(),
{
    if words.len() == 0 {
        Some(Seq::empty())
    } else {
        match (turn_named(words[0]), turns_named(words.drop_first())) {
            (Some(t), Some(rest)) => Some(seq![t] + rest),
            _ => None,
        }
    }
}

pub open spec fn prefixed(front: Seq<Turn>, rest: Option<Seq<Turn>>) -> Option<Seq<Turn>> {
    match rest {
        Some(r) => Some(front + r),
        None => None,
    }
}

proof fn lemma_word_len(s: Seq<char>, j: int)
    requires
        0 <= j <= s.len(),
        forall|k: int| 0 <= k < j ==> s[k] != ' ',
        j == s.len() || s[j] == ' ',
    ensures
        word_len(s) == j,
    decreases j,
{
    if j > 0 {
        lemma_word_len(s.drop_first(), j - 1);
    }
}

impl Turn {
    /// The turns of an algorithm string: words separated by spaces, empty words ignored.
    /// `None` when a word is not the name of a turn.
    pub fn get_vec_from_alg_string(alg: &str) -> (turns: Option<Vec<Turn>>)
        ensures
            match turns {
                Some(v) => turns_named(split_words(alg@)) == Some(v@),
                None => turns_named(split_words(alg@)) is None,
            },
    {
        let n = alg.unicode_len();
        let mut turns: Vec<Turn> = Vec::new();
        let mut i: usize = 0;
        proof {
            assert(alg@.skip(0) =~= alg@);
        }
        while i < n
            invariant
                n == alg@.len(),
                i <= n,
                turns_named(split_words(alg@)) == prefixed(turns@, turns_named(split_words(alg@.skip(i as int)))),
            decreases n - i,
        {
            let ghost rest = alg@.skip(i as int);
            if alg.get_char(i) == ' ' {
                proof {
                    assert(rest.drop_first() =~= alg@.skip(i + 1));
                }
                i = i + 1;
            } else {
                let mut j: usize = i;
                while j < n && alg.get_char(j) != ' '
                    invariant
                        n == alg@.len(),
                        i <= j <= n,
                        forall|k: int| i <= k < j ==> alg@[k] != ' ',
                    decreases n - j,
                {
                    j = j + 1;
                }
                proof {
                    lemma_word_len(rest, j - i);
                    assert(rest.take(j - i) =~= alg@.subrange(i as int, j as int));
                    assert(rest.skip(j - i) =~= alg@.skip(j as int));
                }
                let part = alg.substring_char(i, j);
                match Turn::from_name(part) {
                    Some(t) => {
                        let ghost before = turns@;
                        turns.push(t);
                        proof {
                            let words = split_words(rest);
                            assert(words.drop_first() =~= split_words(alg@.skip(j as int)));
                            assert(before + (seq![t] + turns_named(words.drop_first()).unwrap()) =~= turns@ + turns_named(words.drop_first()).unwrap());
                        }
                    },
                    None => {
                        proof {
                            let words = split_words(rest);
                            assert(words[0] == part@);
                        }
                        return None;
                    },
                }
                i = j;
            }
        }
        proof {
            assert(alg@.skip(i as int) =~= Seq::<char>::empty());
            assert(turns@ + Seq::<Turn>::empty() =~= turns@);
        }
        Some(turns)
    }
}

/// A turn with its name.
pub struct TurnNameMap {
    pub name: String,
    pub turn: Turn,
}

impl TurnNameMap {
    pub fn new(name: String, turn: Turn) -> (r: Self)
        ensures
            r.name@ == name@,
            r.turn == turn,
    {
        Self { name, turn }
    }

    /// Every turn with its name, in the order of the name table.
    pub fn get_all_turn_name_maps() -> (maps: Vec<Self>)
        ensures
            maps@.len() == 57,
            forall|i: int| 0 <= i < 57 ==> (#[trigger] maps@[i]).name@ == turn_names()[i] && maps@[i].turn == named_turns()[i],
    {
        let mut maps: Vec<Self> = Vec::new();
        let mut i: usize = 0;
        while i < 57
            invariant
                i <= 57,
                maps@.len() == i,
                forall|k: int| 0 <= k < i ==> (#[trigger] maps@[k]).name@ == turn_names()[k] && maps@[k].turn == named_turns()[k],
            decreases 57 - i,
        {
            maps.push(Self::new(name_string(i), named_turn(i)));
            i = i + 1;
        }
        maps
    }
}

} // verus!
