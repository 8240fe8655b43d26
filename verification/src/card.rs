//! Playing cards: a rank symbol and a suit symbol.
//!
//! Ranks are drawn from the thirteen-symbol alphabet `2..9, T, J, D, K, A`
//! (`D` is the queen-equivalent symbol). Cards compare and order **by rank
//! only**: two cards of equal rank are equal regardless of suit.

use vstd::prelude::*;

verus! {

/// A playing card: a rank symbol (`fig`) and a suit symbol (`col`).
#[derive(Debug, Copy, Clone, Eq)]
pub struct Card {
    pub fig: char,
    pub col: char,
}

/// Position of a rank symbol in the ordered rank alphabet, `1` (the `2`)
/// through `13` (the ace). Any other character, including the sentinel
/// `'_'` produced by walking below the lowest rank, maps to `0`.
pub open spec fn rank_char(c: char) -> u8 {
    match c {
        '2' => 1,
        '3' => 2,
        '4' => 3,
        '5' => 4,
        '6' => 5,
        '7' => 6,
        '8' => 7,
        '9' => 8,
        'T' => 9,
        'J' => 10,
        'D' => 11,
        'K' => 12,
        'A' => 13,
        _ => 0,
    }
}

/// Rank position of a card (`0` for a sentinel or unknown rank symbol).
pub open spec fn rank_of(c: Card) -> u8 {
    rank_char(c.fig)
}

/// A card whose rank symbol belongs to the rank alphabet.
pub open spec fn valid_card(c: Card) -> bool {
    rank_of(c) >= 1
}

/// Executable rank position, equal to the specification `rank_char`.
pub fn rank_index(c: char) -> (r: u8)
    ensures
        r == rank_char(c),
{
    match c {
        '2' => 1,
        '3' => 2,
        '4' => 3,
        '5' => 4,
        '6' => 5,
        '7' => 6,
        '8' => 7,
        '9' => 8,
        'T' => 9,
        'J' => 10,
        'D' => 11,
        'K' => 12,
        'A' => 13,
        _ => 0,
    }
}

/// The rank symbol one position below `c` in the rank alphabet, or the
/// sentinel `'_'` below the lowest rank. The lowest rank has no valid
/// predecessor: there is no wraparound from the `2` back to the ace.
pub open spec fn prev_rank_char(c: char) -> char {
    match c {
        '3' => '2',
        '4' => '3',
        '5' => '4',
        '6' => '5',
        '7' => '6',
        '8' => '7',
        '9' => '8',
        'T' => '9',
        'J' => 'T',
        'D' => 'J',
        'K' => 'D',
        'A' => 'K',
        _ => '_',
    }
}

proof fn lemma_prev_rank_char(c: char)
    ensures
        rank_char(prev_rank_char(c)) == if rank_char(c) >= 1 {
            (rank_char(c) - 1) as u8
        } else {
            0u8
        },
{
}

/// Executable predecessor symbol, equal to the specification `prev_rank_char`.
fn prev_rank_index(c: char) -> (r: char)
    ensures
        r == prev_rank_char(c),
{
    match c {
        '3' => '2',
        '4' => '3',
        '5' => '4',
        '6' => '5',
        '7' => '6',
        '8' => '7',
        '9' => '8',
        'T' => '9',
        'J' => 'T',
        'D' => 'J',
        'K' => 'D',
        'A' => 'K',
        _ => '_',
    }
}

impl Card {
    /// Builds the full deck: the cross product of the rank alphabet and the
    /// suit alphabet, in a uniformly randomized order. Alphabets without
    /// repeated symbols yield a deck without repeated cards.
    pub fn generate(names: &str, suits: &str) -> (deck: Vec<Card>)
        ensures
            deck@.len() == names@.len() * suits@.len(),
            forall|i: int| 0 <= i < deck@.len() ==> #[trigger] names@.contains(deck@[i].fig),
            forall|i: int| 0 <= i < deck@.len() ==> #[trigger] suits@.contains(deck@[i].col),
            names@.no_duplicates() && suits@.no_duplicates() ==> deck@.no_duplicates(),
    {
        let n = names.unicode_len();
        let m = suits.unicode_len();
        let mut vec: Vec<Card> = Vec::new();
        let mut i: usize = 0;
        while i < n
            invariant
                i <= n,
                n == names@.len(),
                m == suits@.len(),
                vec@.len() == i * m,
                forall|k: int|
                    0 <= k < vec@.len() ==> names@.contains(#[trigger] vec@[k].fig)
                        && suits@.contains(vec@[k].col),
                forall|k: int|
                    0 <= k < vec@.len() ==> names@.take(i as int).contains(#[trigger] vec@[k].fig),
                names@.no_duplicates() && suits@.no_duplicates() ==> vec@.no_duplicates(),
            decreases n - i,
        {
            let c = names.get_char(i);
            let mut j: usize = 0;
            while j < m
                invariant
                    j <= m,
                    i < n,
                    n == names@.len(),
                    m == suits@.len(),
                    c == names@[i as int],
                    vec@.len() == i * m + j,
                    forall|k: int|
                        0 <= k < vec@.len() ==> names@.contains(#[trigger] vec@[k].fig)
                            && suits@.contains(vec@[k].col),
                    forall|k: int|
                        0 <= k < i * m ==> names@.take(i as int).contains(#[trigger] vec@[k].fig),
                    forall|k: int|
                        i * m <= k < vec@.len() ==> (#[trigger] vec@[k]).fig == names@[i as int]
                            && suits@.take(j as int).contains(vec@[k].col),
                    names@.no_duplicates() && suits@.no_duplicates() ==> vec@.no_duplicates(),
                decreases m - j,
            {
                let s = suits.get_char(j);
                proof {
                    assert(names@.contains(c)) by {
                        assert(names@[i as int] == c);
                    }
                    assert(suits@.contains(s)) by {
                        assert(suits@[j as int] == s);
                    }
                    if names@.no_duplicates() && suits@.no_duplicates() {
                        assert(!names@.take(i as int).contains(c)) by {
                            if names@.take(i as int).contains(c) {
                                let t = choose|t: int|
                                    0 <= t < i && names@.take(i as int)[t] == c;
                                assert(names@[t] == names@[i as int]);
                            }
                        }
                        assert(!suits@.take(j as int).contains(s)) by {
                            if suits@.take(j as int).contains(s) {
                                let t = choose|t: int|
                                    0 <= t < j && suits@.take(j as int)[t] == s;
                                assert(suits@[t] == suits@[j as int]);
                            }
                        }
                        assert forall|a: int, b: int|
                            0 <= a < b < vec@.len() + 1 implies vec@.push(
                            Card { fig: c, col: s },
                        )[a] != vec@.push(Card { fig: c, col: s })[b] by {
                            if b == vec@.len() {
                                if a < i * m {
                                    assert(names@.take(i as int).contains(vec@[a].fig));
                                } else {
                                    assert(suits@.take(j as int).contains(vec@[a].col));
                                }
                            }
                        }
                    }
                }
                vec.push(Card { fig: c, col: s });
                proof {
                    assert forall|k: int|
                        i * m <= k < vec@.len() implies (#[trigger] vec@[k]).fig
                        == names@[i as int] && suits@.take(j + 1).contains(vec@[k].col) by {
                        if k < vec@.len() - 1 {
                            let t = choose|t: int|
                                0 <= t < j && suits@.take(j as int)[t] == vec@[k].col;
                            assert(suits@.take(j + 1)[t] == vec@[k].col);
                        } else {
                            assert(vec@[k].col == s);
                            assert(suits@.take(j + 1)[j as int] == s);
                        }
                    }
                }
                j += 1;
            }
            proof {
                assert(i * m + m == (i + 1) * m) by (nonlinear_arith);
                assert forall|k: int|
                    0 <= k < vec@.len() implies names@.take(i + 1).contains(
                    #[trigger] vec@[k].fig,
                ) by {
                    if k < i * m {
                        let t = choose|t: int| 0 <= t < i && names@.take(i as int)[t] == vec@[k].fig;
                        assert(names@.take(i + 1)[t] == vec@[k].fig);
                    } else {
                        assert(vec@[k].fig == names@[i as int]);
                        assert(names@.take(i + 1)[i as int] == vec@[k].fig);
                    }
                }
            }
            i += 1;
        }
        let ghost before = vec@;
        let ghost p = |c: Card| names@.contains(c.fig) && suits@.contains(c.col);
        crate::rng::shuffle_cards(&mut vec);
        proof {
            if names@.no_duplicates() && suits@.no_duplicates() {
                before.lemma_multiset_has_no_duplicates();
                assert forall|x: Card| vec@.to_multiset().contains(x) implies vec@.to_multiset().count(x)
                    == 1 by {
                    assert(before.to_multiset().contains(x));
                }
                vec@.lemma_multiset_has_no_duplicates_conv();
            }
            crate::seq_util::lemma_multiset_all(before, vec@, p);
            assert forall|k: int| 0 <= k < vec@.len() implies #[trigger] names@.contains(
                vec@[k].fig,
            ) by {
                assert(p(vec@[k]));
            }
            assert forall|k: int| 0 <= k < vec@.len() implies #[trigger] suits@.contains(
                vec@[k].col,
            ) by {
                assert(p(vec@[k]));
            }
        }
        vec
    }

    /// Builds a card from a two-character code, rank symbol then suit symbol.
    pub fn new(name: &str) -> (c: Card)
        requires
            name@.len() >= 2,
        ensures
            c.fig == name@[0],
            c.col == name@[1],
    {
        Card { fig: name.get_char(0), col: name.get_char(1) }
    }

    /// The card's rank symbol.
    pub fn fig(&self) -> (r: char)
        ensures
            r == self.fig,
    {
        self.fig
    }

    /// The card's suit symbol.
    pub fn col(&self) -> (r: char)
        ensures
            r == self.col,
    {
        self.col
    }

    /// Renders the card back to its two-character code.
    pub fn code(&self) -> (r: String)
        ensures
            r@ == seq![self.fig, self.col],
    {
        let mut s = String::new();
        crate::text::push_char(&mut s, self.fig);
        crate::text::push_char(&mut s, self.col);
        proof {
            assert(s@ =~= seq![self.fig, self.col]);
        }
        s
    }

    /// The "one rank lower, same suit" card used by the straight search;
    /// below the lowest rank it degrades to a sentinel card of rank `0`,
    /// which matches no valid card.
    pub fn pred(&self) -> (c: Card)
        ensures
            c.col == self.col,
            rank_of(c) == if rank_of(*self) >= 1 {
                (rank_of(*self) - 1) as u8
            } else {
                0u8
            },
    {
        proof {
            lemma_prev_rank_char(self.fig);
        }
        Card { fig: prev_rank_index(self.fig), col: self.col }
    }
}

impl PartialEq for Card {
    /// Cards are equal when their ranks are equal, whatever the suits.
    fn eq(&self, other: &Self) -> (r: bool) {
        rank_index(self.fig) == rank_index(other.fig)
    }
}

impl vstd::std_specs::cmp::PartialEqSpecImpl for Card {
    open spec fn obeys_eq_spec() -> bool {
        true
    }

    open spec fn eq_spec(&self, other: &Card) -> bool {
        rank_of(*self) == rank_of(*other)
    }
}

impl PartialOrd for Card {
    /// Cards order by rank position alone.
    fn partial_cmp(&self, other: &Self) -> (r: Option<core::cmp::Ordering>) {
        let a = rank_index(self.fig);
        let b = rank_index(other.fig);
        if a < b {
            Some(core::cmp::Ordering::Less)
        } else if a == b {
            Some(core::cmp::Ordering::Equal)
        } else {
            Some(core::cmp::Ordering::Greater)
        }
    }
}

impl vstd::std_specs::cmp::PartialOrdSpecImpl for Card {
    open spec fn obeys_partial_cmp_spec() -> bool {
        true
    }

    open spec fn partial_cmp_spec(&self, other: &Card) -> Option<core::cmp::Ordering> {
        if rank_of(*self) < rank_of(*other) {
            Some(core::cmp::Ordering::Less)
        } else if rank_of(*self) == rank_of(*other) {
            Some(core::cmp::Ordering::Equal)
        } else {
            Some(core::cmp::Ordering::Greater)
        }
    }
}

} // verus!
