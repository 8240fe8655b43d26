//! Hand categories and the hand classifier.
//!
//! `Hand::find_all` maps a card set to every supported hand, as a catalogue
//! sorted ascending by hand order and deduplicated. Two hands compare by
//! category first and then by the single highest member card only; kickers
//! beyond the top card take no part in hand equality or order.

use vstd::prelude::*;

use crate::card::{rank_of, valid_card, Card};

verus! {

/// The nine hand categories, worst to best.
#[derive(Debug, Clone, Copy, PartialEq, Eq, Structural)]
pub enum HandType {
    HighCard,
    Pair,
    TwoPair,
    ThreeOfAKind,
    Straight,
    Flush,
    FullHouse,
    FourOfAKind,
    StraightFlush,
}

/// Position of a category in the worst-to-best order.
pub open spec fn ht_idx(t: HandType) -> u8 {
    match t {
        HandType::HighCard => 0,
        HandType::Pair => 1,
        HandType::TwoPair => 2,
        HandType::ThreeOfAKind => 3,
        HandType::Straight => 4,
        HandType::Flush => 5,
        HandType::FullHouse => 6,
        HandType::FourOfAKind => 7,
        HandType::StraightFlush => 8,
    }
}

/// Executable category position, equal to the specification `ht_idx`.
pub fn hand_type_index(t: HandType) -> (r: u8)
    ensures
        r == ht_idx(t),
{
    match t {
        HandType::HighCard => 0,
        HandType::Pair => 1,
        HandType::TwoPair => 2,
        HandType::ThreeOfAKind => 3,
        HandType::Straight => 4,
        HandType::Flush => 5,
        HandType::FullHouse => 6,
        HandType::FourOfAKind => 7,
        HandType::StraightFlush => 8,
    }
}

/// A classified hand: its category, its member cards in descending order,
/// and the id of the owning participant.
#[derive(Debug, Clone, Eq)]
pub struct Hand {
    pub hand_type: HandType,
    pub cards: Vec<Card>,
    pub player: usize,
}

/// Rank of the single highest member card (`0` for an empty card list,
/// which no classified hand has).
pub open spec fn top_rank(h: Hand) -> u8 {
    if h.cards@.len() > 0 {
        rank_of(h.cards@[0])
    } else {
        0
    }
}

/// Hand equality: same category and same top-card rank.
pub open spec fn hand_eq_spec(a: Hand, b: Hand) -> bool {
    ht_idx(a.hand_type) == ht_idx(b.hand_type) && top_rank(a) == top_rank(b)
}

/// Hand order (not strict): category first, then top-card rank.
pub open spec fn class_le(a: Hand, b: Hand) -> bool {
    ht_idx(a.hand_type) < ht_idx(b.hand_type) || (ht_idx(a.hand_type) == ht_idx(b.hand_type)
        && top_rank(a) <= top_rank(b))
}

/// Strict hand order.
pub open spec fn class_lt(a: Hand, b: Hand) -> bool {
    class_le(a, b) && !hand_eq_spec(a, b)
}

/// Categories with equal order positions are the same category.
pub proof fn lemma_ht_idx_injective(a: HandType, b: HandType)
    ensures
        ht_idx(a) == ht_idx(b) ==> a == b,
{
}

/// Executable top-card rank, equal to the specification `top_rank`.
pub fn top_rank_exec(h: &Hand) -> (r: u8)
    ensures
        r == top_rank(*h),
{
    if h.cards.len() > 0 {
        crate::card::rank_index(h.cards[0].fig)
    } else {
        0
    }
}

/// Executable hand equality, equal to the specification `hand_eq_spec`.
pub fn hand_eq_exec(a: &Hand, b: &Hand) -> (r: bool)
    ensures
        r == hand_eq_spec(*a, *b),
{
    hand_type_index(a.hand_type) == hand_type_index(b.hand_type) && top_rank_exec(a)
        == top_rank_exec(b)
}

/// Executable hand order, equal to the specification `class_le`.
pub fn hand_le_exec(a: &Hand, b: &Hand) -> (r: bool)
    ensures
        r == class_le(*a, *b),
{
    let ia = hand_type_index(a.hand_type);
    let ib = hand_type_index(b.hand_type);
    ia < ib || (ia == ib && top_rank_exec(a) <= top_rank_exec(b))
}

/// The cards of `cs` whose rank is `r`, in order.
pub open spec fn rank_filter(cs: Seq<Card>, r: u8) -> Seq<Card> {
    cs.filter(|c: Card| rank_of(c) == r)
}

/// The cards of `cs` whose suit is `s`, in order.
pub open spec fn suit_filter(cs: Seq<Card>, s: char) -> Seq<Card> {
    cs.filter(|c: Card| c.col == s)
}

/// How many cards of `cs` have rank `r`.
pub open spec fn cnt_rank(cs: Seq<Card>, r: u8) -> nat {
    rank_filter(cs, r).len()
}

/// How many cards of `cs` have suit `s`.
pub open spec fn cnt_suit(cs: Seq<Card>, s: char) -> nat {
    suit_filter(cs, s).len()
}

/// Some card of `cs` has rank `r`.
pub open spec fn has_rank(cs: Seq<Card>, r: int) -> bool {
    exists|i: int| 0 <= i < cs.len() && rank_of(#[trigger] cs[i]) == r
}

/// Some card of `cs` has rank `r` and suit `s`.
pub open spec fn has_rank_suit(cs: Seq<Card>, r: int, s: char) -> bool {
    exists|i: int| 0 <= i < cs.len() && rank_of(#[trigger] cs[i]) == r && cs[i].col == s
}

/// The four ranks below `r` are all present: a straight can start at `r`.
/// Rank `1` (the lowest) has no predecessor, so no run reaches below it.
pub open spec fn straight_from(cs: Seq<Card>, r: int) -> bool {
    forall|d: int| 1 <= d < 5 ==> #[trigger] has_rank(cs, r - d)
}

/// The four ranks below `r` are all present in suit `s`.
pub open spec fn sflush_from(cs: Seq<Card>, r: int, s: char) -> bool {
    forall|d: int| 1 <= d < 5 ==> #[trigger] has_rank_suit(cs, r - d, s)
}

/// Ranks descend by exactly one from the first card on.
pub open spec fn desc_run(h: Seq<Card>) -> bool {
    forall|k: int| 0 <= k < h.len() ==> rank_of(#[trigger] h[k]) == rank_of(h[0]) - k
}

/// All cards share the suit of the first card.
pub open spec fn same_suit(h: Seq<Card>) -> bool {
    forall|k: int| 0 <= k < h.len() ==> (#[trigger] h[k]).col == h[0].col
}

/// Ranks are in descending (non-strict) order.
pub open spec fn sorted_desc(h: Seq<Card>) -> bool {
    forall|i: int, j: int| 0 <= i <= j < h.len() ==> rank_of(h[i]) >= rank_of(h[j])
}

/// Every card of `h` occurs in `cs`.
pub open spec fn cards_from(h: Seq<Card>, cs: Seq<Card>) -> bool {
    forall|k: int| 0 <= k < h.len() ==> cs.contains(#[trigger] h[k])
}

/// What a hand of each category is made of, relative to the card set `cs`
/// it was classified from.
pub open spec fn hand_sound(h: Hand, cs: Seq<Card>) -> bool {
    &&& h.cards@.len() >= 1
    &&& cards_from(h.cards@, cs)
    &&& match h.hand_type {
        HandType::HighCard => h.cards@.len() == 1,
        HandType::Pair => h.cards@ == rank_filter(cs, top_rank(h)) && h.cards@.len() == 2,
        HandType::ThreeOfAKind => h.cards@ == rank_filter(cs, top_rank(h)) && h.cards@.len() == 3,
        HandType::FourOfAKind => h.cards@ == rank_filter(cs, top_rank(h)) && h.cards@.len() == 4,
        HandType::Straight => h.cards@.len() == 5 && desc_run(h.cards@),
        HandType::StraightFlush => h.cards@.len() == 5 && desc_run(h.cards@) && same_suit(
            h.cards@,
        ),
        HandType::Flush => h.cards@.len() >= 5 && same_suit(h.cards@) && sorted_desc(h.cards@)
            && h.cards@.to_multiset() == suit_filter(cs, h.cards@[0].col).to_multiset(),
        HandType::FullHouse => h.cards@.len() == 5 && sorted_desc(h.cards@) && exists|
            r1: u8,
            r2: u8,
        |
            cnt_rank(cs, r1) == 3 && cnt_rank(cs, r2) == 2 && h.cards@.to_multiset()
                == #[trigger] rank_filter(cs, r1).to_multiset().add(
                rank_filter(cs, r2).to_multiset(),
            ),
        HandType::TwoPair => h.cards@.len() == 4 && sorted_desc(h.cards@) && exists|r1: u8, r2: u8|
            r1 != r2 && cnt_rank(cs, r1) == 2 && cnt_rank(cs, r2) == 2 && h.cards@.to_multiset()
                == #[trigger] rank_filter(cs, r1).to_multiset().add(
                rank_filter(cs, r2).to_multiset(),
            ),
    }
}

/// Some hand of the catalogue has the given category and top-card rank.
pub open spec fn has_class(hs: Seq<Hand>, t: HandType, top: u8) -> bool {
    exists|j: int| 0 <= j < hs.len() && (#[trigger] hs[j]).hand_type == t && top_rank(hs[j]) == top
}

/// Some hand of the catalogue has the given category and a top-card rank
/// at least `top`.
pub open spec fn has_class_geq(hs: Seq<Hand>, t: HandType, top: u8) -> bool {
    exists|j: int| 0 <= j < hs.len() && (#[trigger] hs[j]).hand_type == t && top_rank(hs[j]) >= top
}

/// Filtering one more card by rank extends the filtered prefix by that card
/// exactly when its rank matches.
proof fn lemma_rank_filter_step(s: Seq<Card>, k: int, r: u8)
    requires
        0 <= k < s.len(),
    ensures
        rank_filter(s.take(k + 1), r) == if rank_of(s[k]) == r {
            rank_filter(s.take(k), r).push(s[k])
        } else {
            rank_filter(s.take(k), r)
        },
{
    assert(s.take(k + 1).drop_last() =~= s.take(k));
    assert(s.take(k + 1).last() == s[k]);
    reveal(Seq::filter);
}

/// Filtering one more card by suit extends the filtered prefix by that card
/// exactly when its suit matches.
proof fn lemma_suit_filter_step(s: Seq<Card>, k: int, c: char)
    requires
        0 <= k < s.len(),
    ensures
        suit_filter(s.take(k + 1), c) == if s[k].col == c {
            suit_filter(s.take(k), c).push(s[k])
        } else {
            suit_filter(s.take(k), c)
        },
{
    assert(s.take(k + 1).drop_last() =~= s.take(k));
    assert(s.take(k + 1).last() == s[k]);
    reveal(Seq::filter);
}

/// Collects the cards of rank `r`, in order.
pub(crate) fn filter_by_rank(cards: &[Card], r: u8) -> (out: Vec<Card>)
    ensures
        out@ == rank_filter(cards@, r),
        forall|k: int| 0 <= k < out@.len() ==> cards@.contains(#[trigger] out@[k]),
        forall|k: int| 0 <= k < out@.len() ==> rank_of(#[trigger] out@[k]) == r,
{
    let mut out: Vec<Card> = Vec::new();
    let mut k: usize = 0;
    while k < cards.len()
        invariant
            k <= cards@.len(),
            out@ == rank_filter(cards@.take(k as int), r),
            forall|t: int| 0 <= t < out@.len() ==> cards@.contains(#[trigger] out@[t]),
            forall|t: int| 0 <= t < out@.len() ==> rank_of(#[trigger] out@[t]) == r,
        decreases cards@.len() - k,
    {
        proof {
            lemma_rank_filter_step(cards@, k as int, r);
        }
        if crate::card::rank_index(cards[k].fig) == r {
            proof {
                assert(cards@.contains(cards@[k as int]));
            }
            out.push(cards[k]);
        }
        k += 1;
    }
    proof {
        assert(cards@.take(cards@.len() as int) =~= cards@);
    }
    out
}

/// Collects the cards of suit `s`, in order.
pub(crate) fn filter_by_suit(cards: &[Card], s: char) -> (out: Vec<Card>)
    ensures
        out@ == suit_filter(cards@, s),
        forall|k: int| 0 <= k < out@.len() ==> cards@.contains(#[trigger] out@[k]),
        forall|k: int| 0 <= k < out@.len() ==> (#[trigger] out@[k]).col == s,
{
    let mut out: Vec<Card> = Vec::new();
    let mut k: usize = 0;
    while k < cards.len()
        invariant
            k <= cards@.len(),
            out@ == suit_filter(cards@.take(k as int), s),
            forall|t: int| 0 <= t < out@.len() ==> cards@.contains(#[trigger] out@[t]),
            forall|t: int| 0 <= t < out@.len() ==> (#[trigger] out@[t]).col == s,
        decreases cards@.len() - k,
    {
        proof {
            lemma_suit_filter_step(cards@, k as int, s);
        }
        if cards[k].col == s {
            proof {
                assert(cards@.contains(cards@[k as int]));
            }
            out.push(cards[k]);
        }
        k += 1;
    }
    proof {
        assert(cards@.take(cards@.len() as int) =~= cards@);
    }
    out
}

/// Scans for a card of rank `r` (and of suit `s` when `suited` is set).
pub(crate) fn find_pred(cards: &[Card], r: u8, suited: bool, s: char) -> (res: Option<Card>)
    ensures
        res matches Some(c) ==> cards@.contains(c) && rank_of(c) == r && (suited ==> c.col == s),
        res is None && !suited ==> !has_rank(cards@, r as int),
        res is None && suited ==> !has_rank_suit(cards@, r as int, s),
{
    let mut k: usize = 0;
    while k < cards.len()
        invariant
            k <= cards@.len(),
            forall|t: int|
                0 <= t < k ==> !(rank_of(#[trigger] cards@[t]) == r && (!suited || cards@[t].col
                    == s)),
        decreases cards@.len() - k,
    {
        if crate::card::rank_index(cards[k].fig) == r && (!suited || cards[k].col == s) {
            proof {
                assert(cards@.contains(cards@[k as int]));
            }
            return Some(cards[k]);
        }
        k += 1;
    }
    None
}

/// Greedily chases four rank-predecessors of `start` (same-suit ones when
/// `suited` is set). Succeeds exactly when the four ranks below `start` are
/// all present; the lowest rank has no predecessor, so a run never wraps
/// around the bottom of the rank alphabet.
pub(crate) fn chase(cards: &[Card], start: Card, suited: bool) -> (res: Option<Vec<Card>>)
    requires
        cards@.contains(start),
        forall|i: int| 0 <= i < cards@.len() ==> valid_card(#[trigger] cards@[i]),
    ensures
        res matches Some(v) ==> v@.len() == 5 && v@[0] == start && desc_run(v@) && cards_from(
            v@,
            cards@,
        ) && (suited ==> same_suit(v@)),
        !suited ==> ((res is Some) <==> straight_from(cards@, rank_of(start) as int)),
        suited ==> ((res is Some) <==> sflush_from(cards@, rank_of(start) as int, start.col)),
{
    let mut v: Vec<Card> = Vec::new();
    v.push(start);
    while v.len() < 5
        invariant
            cards@.contains(start),
            forall|i: int| 0 <= i < cards@.len() ==> valid_card(#[trigger] cards@[i]),
            1 <= v@.len() <= 5,
            v@[0] == start,
            desc_run(v@),
            cards_from(v@, cards@),
            suited ==> same_suit(v@),
        decreases 5 - v@.len(),
    {
        let n = v.len();
        let last = v[n - 1];
        proof {
            assert(cards@.contains(v@[n - 1]));
            let w = choose|i: int| 0 <= i < cards@.len() && cards@[i] == v@[n - 1];
            assert(valid_card(cards@[w]));
        }
        let target = crate::card::rank_index(last.fig) - 1;
        match find_pred(cards, target, suited, start.col) {
            Some(c) => {
                proof {
                    assert(rank_of(c) == rank_of(start) - n);
                }
                v.push(c);
            },
            None => {
                proof {
                    let d = n as int;
                    assert(target as int == rank_of(start) - d);
                    if suited {
                        assert(!has_rank_suit(cards@, rank_of(start) - d, start.col));
                        assert(!sflush_from(cards@, rank_of(start) as int, start.col));
                    } else {
                        assert(!has_rank(cards@, rank_of(start) - d));
                        assert(!straight_from(cards@, rank_of(start) as int));
                    }
                }
                return None;
            },
        }
    }
    proof {
        if suited {
            assert forall|d: int| 1 <= d < 5 implies #[trigger] has_rank_suit(
                cards@,
                rank_of(start) - d,
                start.col,
            ) by {
                assert(cards@.contains(v@[d]));
                let w = choose|i: int| 0 <= i < cards@.len() && cards@[i] == v@[d];
                assert(rank_of(cards@[w]) == rank_of(start) - d);
                assert(cards@[w].col == start.col);
            }
        } else {
            assert forall|d: int| 1 <= d < 5 implies #[trigger] has_rank(
                cards@,
                rank_of(start) - d,
            ) by {
                assert(cards@.contains(v@[d]));
                let w = choose|i: int| 0 <= i < cards@.len() && cards@[i] == v@[d];
                assert(rank_of(cards@[w]) == rank_of(start) - d);
            }
        }
    }
    Some(v)
}

/// Sorts cards by descending rank (selection of the largest remaining).
pub(crate) fn sort_cards_desc(v: Vec<Card>) -> (out: Vec<Card>)
    ensures
        out@.len() == v@.len(),
        out@.to_multiset() == v@.to_multiset(),
        sorted_desc(out@),
{
    broadcast use vstd::seq_lib::group_to_multiset_ensures;

    let mut rest = v;
    let mut out: Vec<Card> = Vec::new();
    while rest.len() > 0
        invariant
            out@.len() + rest@.len() == v@.len(),
            out@.to_multiset().add(rest@.to_multiset()) == v@.to_multiset(),
            sorted_desc(out@),
            forall|a: int, b: int|
                0 <= a < out@.len() && 0 <= b < rest@.len() ==> rank_of(out@[a]) >= rank_of(
                    rest@[b],
                ),
        decreases rest@.len(),
    {
        let mut m: usize = 0;
        let mut k: usize = 1;
        while k < rest.len()
            invariant
                m < k <= rest@.len(),
                rest@.len() >= 1,
                forall|t: int| 0 <= t < k ==> rank_of(rest@[m as int]) >= rank_of(#[trigger] rest@[t]),
            decreases rest@.len() - k,
        {
            if crate::card::rank_index(rest[k].fig) > crate::card::rank_index(rest[m].fig) {
                m = k;
            }
            k += 1;
        }
        let ghost old_out = out@;
        let ghost old_rest = rest@;
        let x = rest.remove(m);
        out.push(x);
        proof {
            broadcast use vstd::seq_lib::group_to_multiset_ensures;

            assert(old_rest.contains(old_rest[m as int]));
            assert(old_rest.to_multiset().count(x) > 0);
            assert(out@.to_multiset() =~= old_out.to_multiset().insert(x));
            assert(rest@.to_multiset() =~= old_rest.to_multiset().remove(x));
            assert(out@.to_multiset().add(rest@.to_multiset()) =~= old_out.to_multiset().add(
                old_rest.to_multiset(),
            ));
            assert forall|b: int| 0 <= b < rest@.len() implies rank_of(x) >= rank_of(
                #[trigger] rest@[b],
            ) by {
                if b < m {
                    assert(rest@[b] == old_rest[b]);
                } else {
                    assert(rest@[b] == old_rest[b + 1]);
                }
            }
        }
    }
    out
}

/// Sorts hands ascending by hand order (selection of the least remaining).
pub(crate) fn sort_hands(v: Vec<Hand>) -> (out: Vec<Hand>)
    ensures
        out@.len() == v@.len(),
        out@.to_multiset() == v@.to_multiset(),
        forall|i: int, j: int| 0 <= i <= j < out@.len() ==> class_le(out@[i], out@[j]),
{
    broadcast use vstd::seq_lib::group_to_multiset_ensures;

    let mut rest = v;
    let mut out: Vec<Hand> = Vec::new();
    while rest.len() > 0
        invariant
            out@.len() + rest@.len() == v@.len(),
            out@.to_multiset().add(rest@.to_multiset()) == v@.to_multiset(),
            forall|i: int, j: int| 0 <= i <= j < out@.len() ==> class_le(out@[i], out@[j]),
            forall|a: int, b: int|
                0 <= a < out@.len() && 0 <= b < rest@.len() ==> class_le(out@[a], rest@[b]),
        decreases rest@.len(),
    {
        let mut m: usize = 0;
        let mut k: usize = 1;
        while k < rest.len()
            invariant
                m < k <= rest@.len(),
                rest@.len() >= 1,
                forall|t: int| 0 <= t < k ==> class_le(rest@[m as int], #[trigger] rest@[t]),
            decreases rest@.len() - k,
        {
            if !hand_le_exec(&rest[m], &rest[k]) {
                m = k;
            }
            k += 1;
        }
        let ghost old_out = out@;
        let ghost old_rest = rest@;
        let x = rest.remove(m);
        proof {
            assert(old_rest.contains(old_rest[m as int]));
        }
        out.push(x);
        proof {
            broadcast use vstd::seq_lib::group_to_multiset_ensures;

            assert(old_rest.to_multiset().count(x) > 0);
            assert(out@.to_multiset() =~= old_out.to_multiset().insert(x));
            assert(rest@.to_multiset() =~= old_rest.to_multiset().remove(x));
            assert(out@.to_multiset().add(rest@.to_multiset()) =~= old_out.to_multiset().add(
                old_rest.to_multiset(),
            ));
            assert forall|b: int| 0 <= b < rest@.len() implies class_le(out@.last(), #[trigger] rest@[b]) by {
                if b < m {
                    assert(rest@[b] == old_rest[b]);
                } else {
                    assert(rest@[b] == old_rest[b + 1]);
                }
            }
        }
    }
    out
}

/// Some hand of `hs` is hand-equal to `h`.
pub open spec fn has_eq_hand(hs: Seq<Hand>, h: Hand) -> bool {
    exists|k: int| 0 <= k < hs.len() && hand_eq_spec(#[trigger] hs[k], h)
}

/// Collapses adjacent hand-equal hands of a sorted catalogue, keeping one
/// representative of each (category, top card) class.
pub(crate) fn dedup_hands(v: Vec<Hand>) -> (out: Vec<Hand>)
    requires
        forall|i: int, j: int| 0 <= i <= j < v@.len() ==> class_le(v@[i], v@[j]),
    ensures
        forall|k: int| 0 <= k < out@.len() ==> v@.contains(#[trigger] out@[k]),
        forall|i: int| 0 <= i < v@.len() ==> has_eq_hand(out@, #[trigger] v@[i]),
        forall|i: int, j: int| 0 <= i < j < out@.len() ==> class_lt(out@[i], out@[j]),
{
    let ghost orig = v@;
    let mut rest = v;
    let mut out: Vec<Hand> = Vec::new();
    let ghost done: int = 0;
    while rest.len() > 0
        invariant
            0 <= done <= orig.len(),
            rest@ =~= orig.skip(done),
            forall|i: int, j: int| 0 <= i <= j < orig.len() ==> class_le(orig[i], orig[j]),
            forall|k: int| 0 <= k < out@.len() ==> orig.contains(#[trigger] out@[k]),
            forall|i: int| 0 <= i < done ==> has_eq_hand(out@, #[trigger] orig[i]),
            forall|i: int, j: int| 0 <= i < j < out@.len() ==> class_lt(out@[i], out@[j]),
            forall|a: int, b: int|
                0 <= a < out@.len() && 0 <= b < rest@.len() ==> class_le(out@[a], rest@[b]),
        decreases rest@.len(),
    {
        let ghost old_out = out@;
        let ghost old_rest = rest@;
        let x = rest.remove(0);
        proof {
            assert(x == orig[done]);
            assert(old_rest[0] == orig[done]);
            assert(orig.contains(orig[done]));
            assert(rest@ =~= orig.skip(done + 1));
        }
        let keep = if out.len() == 0 {
            true
        } else {
            !hand_eq_exec(&x, &out[out.len() - 1])
        };
        if keep {
            out.push(x);
            proof {
                let last = out@.len() - 1;
                assert(out@[last] == x);
                // the new hand strictly follows every kept hand
                assert forall|k: int| 0 <= k < last implies class_lt(out@[k], out@[last]) by {
                    assert(class_le(old_out[k], old_rest[0]));
                    assert(class_le(old_out[last - 1], old_rest[0]));
                    if k < last - 1 {
                        assert(class_lt(old_out[k], old_out[last - 1]));
                    }
                }
                // every processed hand still has a representative
                assert forall|i: int| 0 <= i < done + 1 implies has_eq_hand(
                    out@,
                    #[trigger] orig[i],
                ) by {
                    if i < done {
                        let k = choose|k: int|
                            0 <= k < old_out.len() && hand_eq_spec(#[trigger] old_out[k], orig[i]);
                        assert(hand_eq_spec(out@[k], orig[i]));
                    } else {
                        assert(hand_eq_spec(out@[last], orig[i]));
                    }
                }
                // the kept catalogue stays at or below everything not yet seen
                assert forall|a: int, b: int|
                    0 <= a < out@.len() && 0 <= b < rest@.len() implies class_le(
                    out@[a],
                    rest@[b],
                ) by {
                    assert(rest@[b] == orig[done + 1 + b]);
                    assert(class_le(orig[done], orig[done + 1 + b]));
                    if a < last {
                        assert(class_le(old_out[a], orig[done + 1 + b]));
                    }
                }
            }
        } else {
            proof {
                let last = out@.len() - 1;
                assert(hand_eq_spec(out@[last], x));
                assert forall|i: int| 0 <= i < done + 1 implies has_eq_hand(
                    out@,
                    #[trigger] orig[i],
                ) by {
                    if i == done {
                        assert(hand_eq_spec(out@[last], orig[i]));
                    }
                }
                assert forall|a: int, b: int|
                    0 <= a < out@.len() && 0 <= b < rest@.len() implies class_le(
                    out@[a],
                    rest@[b],
                ) by {
                    assert(rest@[b] == orig[done + 1 + b]);
                }
            }
        }
        proof {
            done = done + 1;
        }
    }
    out
}

impl PartialEq for Hand {
    /// Hands are equal when category and top-card rank agree.
    fn eq(&self, other: &Self) -> (r: bool) {
        hand_eq_exec(self, other)
    }
}

impl vstd::std_specs::cmp::PartialEqSpecImpl for Hand {
    open spec fn obeys_eq_spec() -> bool {
        true
    }

    open spec fn eq_spec(&self, other: &Hand) -> bool {
        hand_eq_spec(*self, *other)
    }
}

impl PartialOrd for Hand {
    /// Hands order by category, then by top-card rank only.
    fn partial_cmp(&self, other: &Self) -> (r: Option<core::cmp::Ordering>) {
        let ia = hand_type_index(self.hand_type);
        let ib = hand_type_index(other.hand_type);
        if ia < ib {
            Some(core::cmp::Ordering::Less)
        } else if ia > ib {
            Some(core::cmp::Ordering::Greater)
        } else {
            let ta = top_rank_exec(self);
            let tb = top_rank_exec(other);
            if ta < tb {
                Some(core::cmp::Ordering::Less)
            } else if ta == tb {
                Some(core::cmp::Ordering::Equal)
            } else {
                Some(core::cmp::Ordering::Greater)
            }
        }
    }
}

impl vstd::std_specs::cmp::PartialOrdSpecImpl for Hand {
    open spec fn obeys_partial_cmp_spec() -> bool {
        true
    }

    open spec fn partial_cmp_spec(&self, other: &Hand) -> Option<core::cmp::Ordering> {
        if ht_idx(self.hand_type) < ht_idx(other.hand_type) {
            Some(core::cmp::Ordering::Less)
        } else if ht_idx(self.hand_type) > ht_idx(other.hand_type) {
            Some(core::cmp::Ordering::Greater)
        } else if top_rank(*self) < top_rank(*other) {
            Some(core::cmp::Ordering::Less)
        } else if top_rank(*self) == top_rank(*other) {
            Some(core::cmp::Ordering::Equal)
        } else {
            Some(core::cmp::Ordering::Greater)
        }
    }
}

} // verus!
