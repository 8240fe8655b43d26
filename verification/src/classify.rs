//! The hand classifier: `Hand::find_all` enumerates every hand a card set
//! supports, category by category, then sorts the catalogue ascending and
//! collapses hands that are equal under hand equality (category + top card).

use vstd::prelude::*;

use crate::card::{rank_of, valid_card, Card};
use crate::hand::{
    chase, class_le, class_lt, cnt_rank, cnt_suit, dedup_hands, desc_run, filter_by_rank,
    filter_by_suit, hand_eq_exec, hand_eq_spec, hand_sound, hand_type_index, has_class,
    has_class_geq, has_eq_hand,
    has_rank, has_rank_suit, ht_idx, lemma_ht_idx_injective, rank_filter, same_suit, sflush_from,
    sort_cards_desc, sort_hands, sorted_desc, straight_from, suit_filter, top_rank, Hand, HandType,
};

verus! {

/// Every hand of the catalogue belongs to `player` and is a sound
/// classification of `cs`.
pub open spec fn all_owned_sound(hs: Seq<Hand>, cs: Seq<Card>, player: usize) -> bool {
    forall|j: int|
        0 <= j < hs.len() ==> (#[trigger] hs[j]).player == player && hand_sound(hs[j], cs)
}

/// Every straight flush the card set supports appears in the catalogue.
pub open spec fn complete_sflush(hs: Seq<Hand>, cs: Seq<Card>) -> bool {
    forall|i: int|
        0 <= i < cs.len() && sflush_from(cs, rank_of(#[trigger] cs[i]) as int, cs[i].col)
            ==> has_class(hs, HandType::StraightFlush, rank_of(cs[i]))
}

/// Every straight the card set supports appears in the catalogue.
pub open spec fn complete_straight(hs: Seq<Hand>, cs: Seq<Card>) -> bool {
    forall|i: int|
        0 <= i < cs.len() && straight_from(cs, rank_of(#[trigger] cs[i]) as int) ==> has_class(
            hs,
            HandType::Straight,
            rank_of(cs[i]),
        )
}

/// For every card of a five-or-more-card suit, the catalogue holds a flush
/// whose top card is at least that card.
pub open spec fn complete_flush(hs: Seq<Hand>, cs: Seq<Card>) -> bool {
    forall|i: int|
        0 <= i < cs.len() && cnt_suit(cs, (#[trigger] cs[i]).col) >= 5 ==> has_class_geq(
            hs,
            HandType::Flush,
            rank_of(cs[i]),
        )
}

/// Every rank group of exactly `n` cards appears as a hand of category `t`.
pub open spec fn complete_group(hs: Seq<Hand>, cs: Seq<Card>, n: nat, t: HandType) -> bool {
    forall|i: int|
        0 <= i < cs.len() && cnt_rank(cs, rank_of(#[trigger] cs[i])) == n ==> has_class(
            hs,
            t,
            rank_of(cs[i]),
        )
}

/// Every card appears as a high-card hand.
pub open spec fn complete_high(hs: Seq<Hand>, cs: Seq<Card>) -> bool {
    forall|i: int|
        0 <= i < cs.len() ==> has_class(hs, HandType::HighCard, rank_of(#[trigger] cs[i]))
}

/// The larger of two ranks.
pub open spec fn rank_max(a: u8, b: u8) -> u8 {
    if a > b {
        a
    } else {
        b
    }
}

/// Every three-group and two-group combine into a full house topped by the
/// larger of the two ranks.
pub open spec fn complete_fullhouse(hs: Seq<Hand>, cs: Seq<Card>) -> bool {
    forall|i: int, j: int|
        #![trigger cs[i], cs[j]]
        0 <= i < cs.len() && 0 <= j < cs.len() && cnt_rank(cs, rank_of(cs[i])) == 3 && cnt_rank(
            cs,
            rank_of(cs[j]),
        ) == 2 ==> has_class(hs, HandType::FullHouse, rank_max(rank_of(cs[i]), rank_of(cs[j])))
}

/// Every two distinct two-groups combine into a two-pair hand topped by the
/// larger of the two ranks.
pub open spec fn complete_twopair(hs: Seq<Hand>, cs: Seq<Card>) -> bool {
    forall|i: int, j: int|
        #![trigger cs[i], cs[j]]
        0 <= i < cs.len() && 0 <= j < cs.len() && rank_of(cs[i]) != rank_of(cs[j]) && cnt_rank(
            cs,
            rank_of(cs[i]),
        ) == 2 && cnt_rank(cs, rank_of(cs[j])) == 2 ==> has_class(
            hs,
            HandType::TwoPair,
            rank_max(rank_of(cs[i]), rank_of(cs[j])),
        )
}

/// A hand class found in a prefix is found in the whole.
pub proof fn lemma_has_class_prefix(a: Seq<Hand>, b: Seq<Hand>, t: HandType, top: u8)
    requires
        a.is_prefix_of(b),
        has_class(a, t, top),
    ensures
        has_class(b, t, top),
{
    let j = choose|j: int|
        0 <= j < a.len() && (#[trigger] a[j]).hand_type == t && top_rank(a[j]) == top;
    assert(b[j] == a[j]);
}

/// A hand class bound found in a prefix is found in the whole.
pub proof fn lemma_has_class_geq_prefix(a: Seq<Hand>, b: Seq<Hand>, t: HandType, top: u8)
    requires
        a.is_prefix_of(b),
        has_class_geq(a, t, top),
    ensures
        has_class_geq(b, t, top),
{
    let j = choose|j: int|
        0 <= j < a.len() && (#[trigger] a[j]).hand_type == t && top_rank(a[j]) >= top;
    assert(b[j] == a[j]);
}

/// A hand class survives any reordering of the catalogue.
pub proof fn lemma_has_class_multiset(a: Seq<Hand>, b: Seq<Hand>, t: HandType, top: u8)
    requires
        a.to_multiset() == b.to_multiset(),
        has_class(a, t, top),
    ensures
        has_class(b, t, top),
{
    let p = |h: Hand| h.hand_type == t && top_rank(h) == top;
    let j = choose|j: int|
        0 <= j < a.len() && (#[trigger] a[j]).hand_type == t && top_rank(a[j]) == top;
    assert(p(a[j]));
    crate::seq_util::lemma_multiset_exists(a, b, p);
    let k = choose|k: int| 0 <= k < b.len() && #[trigger] p(b[k]);
    assert((#[trigger] b[k]).hand_type == t && top_rank(b[k]) == top);
}

/// A hand class bound survives any reordering of the catalogue.
pub proof fn lemma_has_class_geq_multiset(a: Seq<Hand>, b: Seq<Hand>, t: HandType, top: u8)
    requires
        a.to_multiset() == b.to_multiset(),
        has_class_geq(a, t, top),
    ensures
        has_class_geq(b, t, top),
{
    let p = |h: Hand| h.hand_type == t && top_rank(h) >= top;
    let j = choose|j: int|
        0 <= j < a.len() && (#[trigger] a[j]).hand_type == t && top_rank(a[j]) >= top;
    assert(p(a[j]));
    crate::seq_util::lemma_multiset_exists(a, b, p);
    let k = choose|k: int| 0 <= k < b.len() && #[trigger] p(b[k]);
    assert((#[trigger] b[k]).hand_type == t && top_rank(b[k]) >= top);
}

/// A hand class survives deduplication, which keeps a hand-equal
/// representative of every catalogue entry.
pub proof fn lemma_has_class_rep(a: Seq<Hand>, b: Seq<Hand>, t: HandType, top: u8)
    requires
        forall|i: int| 0 <= i < a.len() ==> has_eq_hand(b, #[trigger] a[i]),
        has_class(a, t, top),
    ensures
        has_class(b, t, top),
{
    let j = choose|j: int|
        0 <= j < a.len() && (#[trigger] a[j]).hand_type == t && top_rank(a[j]) == top;
    assert(has_eq_hand(b, a[j]));
    let k = choose|k: int| 0 <= k < b.len() && hand_eq_spec(#[trigger] b[k], a[j]);
    lemma_ht_idx_injective(b[k].hand_type, t);
    assert((#[trigger] b[k]).hand_type == t && top_rank(b[k]) == top);
}

/// A hand class bound survives deduplication.
pub proof fn lemma_has_class_geq_rep(a: Seq<Hand>, b: Seq<Hand>, t: HandType, top: u8)
    requires
        forall|i: int| 0 <= i < a.len() ==> has_eq_hand(b, #[trigger] a[i]),
        has_class_geq(a, t, top),
    ensures
        has_class_geq(b, t, top),
{
    let j = choose|j: int|
        0 <= j < a.len() && (#[trigger] a[j]).hand_type == t && top_rank(a[j]) >= top;
    assert(has_eq_hand(b, a[j]));
    let k = choose|k: int| 0 <= k < b.len() && hand_eq_spec(#[trigger] b[k], a[j]);
    lemma_ht_idx_injective(b[k].hand_type, t);
    assert((#[trigger] b[k]).hand_type == t && top_rank(b[k]) >= top);
}

/// Pushing onto a catalogue keeps every prefix a prefix.
pub proof fn lemma_prefix_push(a: Seq<Hand>, b: Seq<Hand>, h: Hand)
    requires
        a.is_prefix_of(b),
    ensures
        a.is_prefix_of(b.push(h)),
{
    assert(b.push(h).subrange(0, a.len() as int) =~= b.subrange(0, a.len() as int));
}

/// In a descending card list, the first card ranks at least any member.
proof fn lemma_sorted_desc_first_geq(s: Seq<Card>, x: Card)
    requires
        sorted_desc(s),
        s.contains(x),
    ensures
        s.len() > 0 && rank_of(s[0]) >= rank_of(x),
{
    let k = choose|k: int| 0 <= k < s.len() && s[k] == x;
    assert(rank_of(s[0]) >= rank_of(s[k]));
}

/// In a descending card list whose ranks are bounded by `r` and where `r`
/// occurs, the first card has rank `r`.
proof fn lemma_sorted_desc_first_max(s: Seq<Card>, r: u8)
    requires
        sorted_desc(s),
        exists|k: int| 0 <= k < s.len() && rank_of(#[trigger] s[k]) == r,
        forall|k: int| 0 <= k < s.len() ==> rank_of(#[trigger] s[k]) <= r,
    ensures
        s.len() > 0 && rank_of(s[0]) == r,
{
    let k = choose|k: int| 0 <= k < s.len() && rank_of(#[trigger] s[k]) == r;
    assert(rank_of(s[0]) >= rank_of(s[k]));
}

/// Pushes one straight-flush hand (when `suited`) or straight hand for each
/// starting card whose four predecessors are present.
fn push_straight_runs(ret: &mut Vec<Hand>, player: usize, cards: &[Card], suited: bool)
    requires
        forall|i: int| 0 <= i < cards@.len() ==> valid_card(#[trigger] cards@[i]),
        all_owned_sound(old(ret)@, cards@, player),
    ensures
        all_owned_sound(final(ret)@, cards@, player),
        old(ret)@.is_prefix_of(final(ret)@),
        suited ==> complete_sflush(final(ret)@, cards@),
        !suited ==> complete_straight(final(ret)@, cards@),
{
    let ghost cs = cards@;
    let ghost base = ret@;
    proof {
        assert(base.is_prefix_of(base));
    }
    let mut i: usize = 0;
    while i < cards.len()
        invariant
            forall|k: int| 0 <= k < cs.len() ==> valid_card(#[trigger] cs[k]),
            cs == cards@,
            i <= cs.len(),
            all_owned_sound(ret@, cs, player),
            base.is_prefix_of(ret@),
            suited ==> forall|k: int|
                0 <= k < i && sflush_from(cs, rank_of(#[trigger] cs[k]) as int, cs[k].col)
                    ==> has_class(ret@, HandType::StraightFlush, rank_of(cs[k])),
            !suited ==> forall|k: int|
                0 <= k < i && straight_from(cs, rank_of(#[trigger] cs[k]) as int) ==> has_class(
                    ret@,
                    HandType::Straight,
                    rank_of(cs[k]),
                ),
        decreases cs.len() - i,
    {
        proof {
            assert(cs.contains(cs[i as int]));
        }
        let start = cards[i];
        let ghost prev = ret@;
        match chase(cards, start, suited) {
            Some(v) => {
                let t = if suited {
                    HandType::StraightFlush
                } else {
                    HandType::Straight
                };
                let h = Hand { hand_type: t, cards: v, player };
                proof {
                    assert(hand_sound(h, cs));
                    assert(top_rank(h) == rank_of(cs[i as int]));
                }
                ret.push(h);
                proof {
                    lemma_prefix_push(base, prev, h);
                    assert(prev.is_prefix_of(ret@)) by {
                        assert(ret@.subrange(0, prev.len() as int) =~= prev);
                    }
                    assert(has_class(ret@, t, rank_of(cs[i as int]))) by {
                        assert((#[trigger] ret@[ret@.len() - 1]).hand_type == t && top_rank(
                            ret@[ret@.len() - 1],
                        ) == rank_of(cs[i as int]));
                    }
                    if suited {
                        assert forall|k: int|
                            0 <= k < i + 1 && sflush_from(
                                cs,
                                rank_of(#[trigger] cs[k]) as int,
                                cs[k].col,
                            ) implies has_class(
                            ret@,
                            HandType::StraightFlush,
                            rank_of(cs[k]),
                        ) by {
                            if k < i {
                                lemma_has_class_prefix(
                                    prev,
                                    ret@,
                                    HandType::StraightFlush,
                                    rank_of(cs[k]),
                                );
                            }
                        }
                    } else {
                        assert forall|k: int|
                            0 <= k < i + 1 && straight_from(
                                cs,
                                rank_of(#[trigger] cs[k]) as int,
                            ) implies has_class(ret@, HandType::Straight, rank_of(cs[k])) by {
                            if k < i {
                                lemma_has_class_prefix(
                                    prev,
                                    ret@,
                                    HandType::Straight,
                                    rank_of(cs[k]),
                                );
                            }
                        }
                    }
                }
            },
            None => {},
        }
        i += 1;
    }
}

/// Pushes one high-card hand for every card.
fn push_high_cards(ret: &mut Vec<Hand>, player: usize, cards: &[Card])
    requires
        all_owned_sound(old(ret)@, cards@, player),
    ensures
        all_owned_sound(final(ret)@, cards@, player),
        old(ret)@.is_prefix_of(final(ret)@),
        complete_high(final(ret)@, cards@),
{
    let ghost cs = cards@;
    let ghost base = ret@;
    proof {
        assert(base.is_prefix_of(base));
    }
    let mut i: usize = 0;
    while i < cards.len()
        invariant
            cs == cards@,
            i <= cs.len(),
            all_owned_sound(ret@, cs, player),
            base.is_prefix_of(ret@),
            forall|k: int|
                0 <= k < i ==> has_class(ret@, HandType::HighCard, rank_of(#[trigger] cs[k])),
        decreases cs.len() - i,
    {
        let h = Hand { hand_type: HandType::HighCard, cards: vec![cards[i]], player };
        proof {
            assert(cs.contains(cs[i as int]));
            assert(h.cards@.len() == 1 && h.cards@[0] == cs[i as int]);
            assert(hand_sound(h, cs));
        }
        let ghost prev = ret@;
        ret.push(h);
        proof {
            lemma_prefix_push(base, prev, h);
            assert(has_class(ret@, HandType::HighCard, rank_of(cs[i as int]))) by {
                assert((#[trigger] ret@[ret@.len() - 1]).hand_type == HandType::HighCard
                    && top_rank(ret@[ret@.len() - 1]) == rank_of(cs[i as int]));
            }
            assert forall|k: int| 0 <= k < i + 1 implies has_class(
                ret@,
                HandType::HighCard,
                rank_of(#[trigger] cs[k]),
            ) by {
                if k < i {
                    lemma_has_class_prefix(prev, ret@, HandType::HighCard, rank_of(cs[k]));
                }
            }
        }
        i += 1;
    }
}

/// Pushes one hand of category `t` for every rank group of exactly `n`
/// cards (`n` is 4, 3 or 2).
fn push_rank_groups(ret: &mut Vec<Hand>, player: usize, cards: &[Card], n: usize, t: HandType)
    requires
        all_owned_sound(old(ret)@, cards@, player),
        (n == 4 && t == HandType::FourOfAKind) || (n == 3 && t == HandType::ThreeOfAKind) || (n == 2
            && t == HandType::Pair),
    ensures
        all_owned_sound(final(ret)@, cards@, player),
        old(ret)@.is_prefix_of(final(ret)@),
        complete_group(final(ret)@, cards@, n as nat, t),
{
    let ghost cs = cards@;
    let ghost base = ret@;
    proof {
        assert(base.is_prefix_of(base));
    }
    let mut i: usize = 0;
    while i < cards.len()
        invariant
            cs == cards@,
            i <= cs.len(),
            (n == 4 && t == HandType::FourOfAKind) || (n == 3 && t == HandType::ThreeOfAKind) || (
            n == 2 && t == HandType::Pair),
            all_owned_sound(ret@, cs, player),
            base.is_prefix_of(ret@),
            forall|k: int|
                0 <= k < i && cnt_rank(cs, rank_of(#[trigger] cs[k])) == n ==> has_class(
                    ret@,
                    t,
                    rank_of(cs[k]),
                ),
        decreases cs.len() - i,
    {
        let r = crate::card::rank_index(cards[i].fig);
        let f = filter_by_rank(cards, r);
        let ghost prev = ret@;
        if f.len() == n {
            let ghost fv = f@;
            let h = Hand { hand_type: t, cards: f, player };
            proof {
                assert(h.cards@ == rank_filter(cs, r));
                assert(rank_of(h.cards@[0]) == r);
                assert(top_rank(h) == r);
                assert(hand_sound(h, cs));
            }
            ret.push(h);
            proof {
                lemma_prefix_push(base, prev, h);
                assert(has_class(ret@, t, rank_of(cs[i as int]))) by {
                    assert((#[trigger] ret@[ret@.len() - 1]).hand_type == t && top_rank(
                        ret@[ret@.len() - 1],
                    ) == rank_of(cs[i as int]));
                }
            }
        }
        proof {
            assert forall|k: int|
                0 <= k < i + 1 && cnt_rank(cs, rank_of(#[trigger] cs[k])) == n implies has_class(
                ret@,
                t,
                rank_of(cs[k]),
            ) by {
                if k < i {
                    lemma_has_class_prefix(prev, ret@, t, rank_of(cs[k]));
                }
            }
        }
        i += 1;
    }
}

/// Pushes one flush hand for each card whose suit holds five or more cards:
/// all the cards of that suit, sorted descending.
fn push_flushes(ret: &mut Vec<Hand>, player: usize, cards: &[Card])
    requires
        all_owned_sound(old(ret)@, cards@, player),
    ensures
        all_owned_sound(final(ret)@, cards@, player),
        old(ret)@.is_prefix_of(final(ret)@),
        complete_flush(final(ret)@, cards@),
{
    let ghost cs = cards@;
    let ghost base = ret@;
    proof {
        assert(base.is_prefix_of(base));
    }
    let mut i: usize = 0;
    while i < cards.len()
        invariant
            cs == cards@,
            i <= cs.len(),
            all_owned_sound(ret@, cs, player),
            base.is_prefix_of(ret@),
            forall|k: int|
                0 <= k < i && cnt_suit(cs, (#[trigger] cs[k]).col) >= 5 ==> has_class_geq(
                    ret@,
                    HandType::Flush,
                    rank_of(cs[k]),
                ),
        decreases cs.len() - i,
    {
        let s = cards[i].col;
        let f = filter_by_suit(cards, s);
        let ghost prev = ret@;
        if f.len() >= 5 {
            let ghost fv = f@;
            let ghost p = |c: Card| cs.contains(c) && c.col == s;
            let sorted = sort_cards_desc(f);
            proof {
                broadcast use vstd::seq_lib::group_to_multiset_ensures;

                // the sorted cards keep suit and membership
                assert forall|k: int| 0 <= k < fv.len() implies #[trigger] p(fv[k]) by {
                    assert(cs.contains(fv[k]) && fv[k].col == s);
                }
                crate::seq_util::lemma_multiset_all(fv, sorted@, p);
                assert forall|k: int|
                    0 <= k < sorted@.len() implies cs.contains(#[trigger] sorted@[k])
                    && sorted@[k].col == s by {
                    assert(p(sorted@[k]));
                }
                // the starting card itself is among them
                assert(cs[i as int].col == s);
                assert(fv.contains(cs[i as int])) by {
                    broadcast use vstd::seq_lib::group_filter_ensures;

                    assert(cs.contains(cs[i as int]));
                }
                assert(fv.to_multiset().count(cs[i as int]) > 0);
                assert(sorted@.to_multiset().count(cs[i as int]) > 0);
                assert(sorted@.contains(cs[i as int]));
                lemma_sorted_desc_first_geq(sorted@, cs[i as int]);
            }
            let h = Hand { hand_type: HandType::Flush, cards: sorted, player };
            proof {
                assert(h.cards@[0].col == s);
                assert(same_suit(h.cards@));
                assert(hand_sound(h, cs));
                assert(top_rank(h) >= rank_of(cs[i as int]));
            }
            ret.push(h);
            proof {
                lemma_prefix_push(base, prev, h);
                assert(has_class_geq(ret@, HandType::Flush, rank_of(cs[i as int]))) by {
                    assert((#[trigger] ret@[ret@.len() - 1]).hand_type == HandType::Flush
                        && top_rank(ret@[ret@.len() - 1]) >= rank_of(cs[i as int]));
                }
            }
        }
        proof {
            assert forall|k: int|
                0 <= k < i + 1 && cnt_suit(cs, (#[trigger] cs[k]).col) >= 5 implies has_class_geq(
                ret@,
                HandType::Flush,
                rank_of(cs[k]),
            ) by {
                if k < i {
                    lemma_has_class_geq_prefix(prev, ret@, HandType::Flush, rank_of(cs[k]));
                }
            }
        }
        i += 1;
    }
}

/// Copies the member cards of two hands into one list.
fn concat_hand_cards(a: &Hand, b: &Hand) -> (out: Vec<Card>)
    ensures
        out@ == a.cards@ + b.cards@,
{
    let mut out: Vec<Card> = Vec::new();
    let mut k: usize = 0;
    while k < a.cards.len()
        invariant
            k <= a.cards@.len(),
            out@ == a.cards@.take(k as int),
        decreases a.cards@.len() - k,
    {
        out.push(a.cards[k]);
        proof {
            assert(out@ =~= a.cards@.take(k + 1));
        }
        k += 1;
    }
    proof {
        assert(out@ =~= a.cards@);
    }
    let mut k: usize = 0;
    while k < b.cards.len()
        invariant
            k <= b.cards@.len(),
            out@ == a.cards@ + b.cards@.take(k as int),
        decreases b.cards@.len() - k,
    {
        out.push(b.cards[k]);
        proof {
            assert(out@ =~= a.cards@ + b.cards@.take(k + 1));
        }
        k += 1;
    }
    proof {
        assert(out@ =~= a.cards@ + b.cards@);
    }
    out
}

/// The combination of a three-group hand at `base[a]` and a two-group hand
/// at `base[b]` appears in `aux` as a full house topped by the larger rank.
pub open spec fn fh_pair_done(base: Seq<Hand>, aux: Seq<Hand>, a: int, b: int) -> bool {
    base[a].hand_type == HandType::ThreeOfAKind && base[b].hand_type == HandType::Pair
        ==> has_class(aux, HandType::FullHouse, rank_max(top_rank(base[a]), top_rank(base[b])))
}

/// Builds the full house for one three-group and one two-group hand.
fn build_fullhouse(tri: &Hand, par: &Hand, player: usize, cards: &[Card]) -> (h: Hand)
    requires
        hand_sound(*tri, cards@),
        hand_sound(*par, cards@),
        tri.hand_type == HandType::ThreeOfAKind,
        par.hand_type == HandType::Pair,
    ensures
        h.hand_type == HandType::FullHouse,
        h.player == player,
        hand_sound(h, cards@),
        top_rank(h) == rank_max(top_rank(*tri), top_rank(*par)),
{
    let ghost cs = cards@;
    let ghost r1 = top_rank(*tri);
    let ghost r2 = top_rank(*par);
    let cc = concat_hand_cards(tri, par);
    let ghost ccv = cc@;
    let ghost p = |c: Card| cs.contains(c) && (rank_of(c) == r1 || rank_of(c) == r2);
    let sorted = sort_cards_desc(cc);
    proof {
        broadcast use vstd::seq_lib::group_to_multiset_ensures;
        broadcast use vstd::seq_lib::group_filter_ensures;

        vstd::seq_lib::lemma_multiset_commutative(tri.cards@, par.cards@);
        assert forall|k: int| 0 <= k < ccv.len() implies #[trigger] p(ccv[k]) by {
            if k < 3 {
                assert(ccv[k] == tri.cards@[k]);
                assert(tri.cards@[k] == rank_filter(cs, r1)[k]);
                assert(rank_of(tri.cards@[k]) == r1);
                assert(cs.contains(tri.cards@[k]));
            } else {
                assert(ccv[k] == par.cards@[k - 3]);
                assert(par.cards@[k - 3] == rank_filter(cs, r2)[k - 3]);
                assert(rank_of(par.cards@[k - 3]) == r2);
                assert(cs.contains(par.cards@[k - 3]));
            }
        }
        crate::seq_util::lemma_multiset_all(ccv, sorted@, p);
        assert forall|k: int|
            0 <= k < sorted@.len() implies cs.contains(#[trigger] sorted@[k]) && (rank_of(
            sorted@[k],
        ) == r1 || rank_of(sorted@[k]) == r2) by {
            assert(p(sorted@[k]));
        }
        let w = if r1 >= r2 {
            tri.cards@[0]
        } else {
            par.cards@[0]
        };
        if r1 >= r2 {
            assert(ccv[0] == w);
        } else {
            assert(ccv[3] == w);
        }
        assert(ccv.contains(w));
        assert(ccv.to_multiset().count(w) > 0);
        assert(sorted@.to_multiset().count(w) > 0);
        assert(sorted@.contains(w));
        assert(rank_of(w) == rank_max(r1, r2));
        let wi = choose|k: int| 0 <= k < sorted@.len() && sorted@[k] == w;
        assert(rank_of(sorted@[wi]) == rank_max(r1, r2));
        lemma_sorted_desc_first_max(sorted@, rank_max(r1, r2));
    }
    let h = Hand { hand_type: HandType::FullHouse, cards: sorted, player };
    proof {
        assert(hand_sound(h, cs)) by {
            assert(h.cards@.to_multiset() == rank_filter(cs, r1).to_multiset().add(
                rank_filter(cs, r2).to_multiset(),
            ));
            assert(cnt_rank(cs, r1) == 3 && cnt_rank(cs, r2) == 2);
        }
        assert(top_rank(h) == rank_max(r1, r2));
    }
    h
}

/// Pushes the cross product of every three-group hand with every two-group
/// hand, each combination concatenated and sorted descending.
fn push_fullhouses(ret: &mut Vec<Hand>, player: usize, cards: &[Card])
    requires
        all_owned_sound(old(ret)@, cards@, player),
        complete_group(old(ret)@, cards@, 3, HandType::ThreeOfAKind),
        complete_group(old(ret)@, cards@, 2, HandType::Pair),
    ensures
        all_owned_sound(final(ret)@, cards@, player),
        old(ret)@.is_prefix_of(final(ret)@),
        complete_fullhouse(final(ret)@, cards@),
{
    let ghost cs = cards@;
    let ghost base = ret@;
    let n = ret.len();
    let mut aux: Vec<Hand> = Vec::new();
    let mut i: usize = 0;
    while i < n
        invariant
            cs == cards@,
            ret@ == base,
            n == base.len(),
            i <= n,
            all_owned_sound(base, cs, player),
            all_owned_sound(aux@, cs, player),
            forall|a: int, b: int|
                #![trigger base[a], base[b]]
                0 <= a < i && 0 <= b < n ==> fh_pair_done(base, aux@, a, b),
        decreases n - i,
    {
        if hand_type_index(ret[i].hand_type) == 3 {
            proof {
                assert(ret@[i as int].hand_type == HandType::ThreeOfAKind) by {
                    lemma_ht_idx_injective(ret@[i as int].hand_type, HandType::ThreeOfAKind);
                }
            }
            let mut j: usize = 0;
            while j < n
                invariant
                    cs == cards@,
                    ret@ == base,
                    n == base.len(),
                    i < n,
                    j <= n,
                    base[i as int].hand_type == HandType::ThreeOfAKind,
                    all_owned_sound(base, cs, player),
                    all_owned_sound(aux@, cs, player),
                    forall|a: int, b: int|
                        #![trigger base[a], base[b]]
                        0 <= a < i && 0 <= b < n ==> fh_pair_done(base, aux@, a, b),
                    forall|b: int| 0 <= b < j ==> fh_pair_done(base, aux@, i as int, b),
                decreases n - j,
            {
                let ghost aux_prev = aux@;
                if hand_type_index(ret[j].hand_type) == 1 {
                    proof {
                        assert(ret@[j as int].hand_type == HandType::Pair) by {
                            lemma_ht_idx_injective(ret@[j as int].hand_type, HandType::Pair);
                        }
                    }
                    let h = build_fullhouse(&ret[i], &ret[j], player, cards);
                    aux.push(h);
                    proof {
                        assert(has_class(
                            aux@,
                            HandType::FullHouse,
                            rank_max(top_rank(base[i as int]), top_rank(base[j as int])),
                        )) by {
                            assert((#[trigger] aux@[aux@.len() - 1]) == h);
                        }
                        assert(aux_prev.is_prefix_of(aux@)) by {
                            assert(aux@.subrange(0, aux_prev.len() as int) =~= aux_prev);
                        }
                    }
                }
                proof {
                    assert(aux_prev.is_prefix_of(aux@)) by {
                        assert(aux@.subrange(0, aux_prev.len() as int) =~= aux_prev);
                    }
                    assert forall|a: int, b: int|
                        #![trigger base[a], base[b]]
                        0 <= a < i && 0 <= b < n implies fh_pair_done(base, aux@, a, b) by {
                        if base[a].hand_type == HandType::ThreeOfAKind && base[b].hand_type
                            == HandType::Pair {
                            lemma_has_class_prefix(
                                aux_prev,
                                aux@,
                                HandType::FullHouse,
                                rank_max(top_rank(base[a]), top_rank(base[b])),
                            );
                        }
                    }
                    assert forall|b: int| 0 <= b < j + 1 implies fh_pair_done(
                        base,
                        aux@,
                        i as int,
                        b,
                    ) by {
                        if b < j && base[i as int].hand_type == HandType::ThreeOfAKind && base[b].hand_type
                            == HandType::Pair {
                            assert(fh_pair_done(base, aux_prev, i as int, b));
                            lemma_has_class_prefix(
                                aux_prev,
                                aux@,
                                HandType::FullHouse,
                                rank_max(top_rank(base[i as int]), top_rank(base[b])),
                            );
                        }
                    }
                }
                j += 1;
            }
        }
        i += 1;
    }
    let ghost pre_aux = aux@;
    ret.append(&mut aux);
    proof {
        assert(base.is_prefix_of(ret@)) by {
            assert(ret@.subrange(0, base.len() as int) =~= base);
        }
        assert forall|k: int|
            0 <= k < ret@.len() implies (#[trigger] ret@[k]).player == player && hand_sound(
            ret@[k],
            cs,
        ) by {
            if k >= base.len() {
                assert(ret@[k] == pre_aux[k - base.len()]);
            }
        }
        assert forall|ci: int, cj: int|
            #![trigger cs[ci], cs[cj]]
            0 <= ci < cs.len() && 0 <= cj < cs.len() && cnt_rank(cs, rank_of(cs[ci])) == 3
                && cnt_rank(cs, rank_of(cs[cj])) == 2 implies has_class(
            ret@,
            HandType::FullHouse,
            rank_max(rank_of(cs[ci]), rank_of(cs[cj])),
        ) by {
            assert(has_class(base, HandType::ThreeOfAKind, rank_of(cs[ci])));
            assert(has_class(base, HandType::Pair, rank_of(cs[cj])));
            let a = choose|a: int|
                0 <= a < base.len() && (#[trigger] base[a]).hand_type == HandType::ThreeOfAKind
                    && top_rank(base[a]) == rank_of(cs[ci]);
            let b = choose|b: int|
                0 <= b < base.len() && (#[trigger] base[b]).hand_type == HandType::Pair && top_rank(
                    base[b],
                ) == rank_of(cs[cj]);
            assert(fh_pair_done(base, pre_aux, a, b));
            let k = choose|k: int|
                0 <= k < pre_aux.len() && (#[trigger] pre_aux[k]).hand_type == HandType::FullHouse
                    && top_rank(pre_aux[k]) == rank_max(rank_of(cs[ci]), rank_of(cs[cj]));
            assert((#[trigger] ret@[base.len() + k]).hand_type == HandType::FullHouse && top_rank(
                ret@[base.len() + k],
            ) == rank_max(rank_of(cs[ci]), rank_of(cs[cj])));
        }
    }
}

/// The combination of two distinct two-group hands at `base[a]` and
/// `base[b]` appears in `aux` as a two-pair hand topped by the larger rank.
pub open spec fn tp_pair_done(base: Seq<Hand>, aux: Seq<Hand>, a: int, b: int) -> bool {
    base[a].hand_type == HandType::Pair && base[b].hand_type == HandType::Pair && !hand_eq_spec(
        base[a],
        base[b],
    ) ==> has_class(aux, HandType::TwoPair, rank_max(top_rank(base[a]), top_rank(base[b])))
}

/// Builds the two-pair hand for two distinct two-group hands.
fn build_twopair(p1: &Hand, p2: &Hand, player: usize, cards: &[Card]) -> (h: Hand)
    requires
        hand_sound(*p1, cards@),
        hand_sound(*p2, cards@),
        p1.hand_type == HandType::Pair,
        p2.hand_type == HandType::Pair,
        !hand_eq_spec(*p1, *p2),
    ensures
        h.hand_type == HandType::TwoPair,
        h.player == player,
        hand_sound(h, cards@),
        top_rank(h) == rank_max(top_rank(*p1), top_rank(*p2)),
{
    let ghost cs = cards@;
    let ghost r1 = top_rank(*p1);
    let ghost r2 = top_rank(*p2);
    let cc = concat_hand_cards(p1, p2);
    let ghost ccv = cc@;
    let ghost p = |c: Card| cs.contains(c) && (rank_of(c) == r1 || rank_of(c) == r2);
    let sorted = sort_cards_desc(cc);
    proof {
        broadcast use vstd::seq_lib::group_to_multiset_ensures;
        broadcast use vstd::seq_lib::group_filter_ensures;

        vstd::seq_lib::lemma_multiset_commutative(p1.cards@, p2.cards@);
        assert forall|k: int| 0 <= k < ccv.len() implies #[trigger] p(ccv[k]) by {
            if k < 2 {
                assert(ccv[k] == p1.cards@[k]);
                assert(p1.cards@[k] == rank_filter(cs, r1)[k]);
                assert(rank_of(p1.cards@[k]) == r1);
                assert(cs.contains(p1.cards@[k]));
            } else {
                assert(ccv[k] == p2.cards@[k - 2]);
                assert(p2.cards@[k - 2] == rank_filter(cs, r2)[k - 2]);
                assert(rank_of(p2.cards@[k - 2]) == r2);
                assert(cs.contains(p2.cards@[k - 2]));
            }
        }
        crate::seq_util::lemma_multiset_all(ccv, sorted@, p);
        assert forall|k: int|
            0 <= k < sorted@.len() implies cs.contains(#[trigger] sorted@[k]) && (rank_of(
            sorted@[k],
        ) == r1 || rank_of(sorted@[k]) == r2) by {
            assert(p(sorted@[k]));
        }
        let w = if r1 >= r2 {
            p1.cards@[0]
        } else {
            p2.cards@[0]
        };
        if r1 >= r2 {
            assert(ccv[0] == w);
        } else {
            assert(ccv[2] == w);
        }
        assert(ccv.contains(w));
        assert(ccv.to_multiset().count(w) > 0);
        assert(sorted@.to_multiset().count(w) > 0);
        assert(sorted@.contains(w));
        assert(rank_of(w) == rank_max(r1, r2));
        let wi = choose|k: int| 0 <= k < sorted@.len() && sorted@[k] == w;
        assert(rank_of(sorted@[wi]) == rank_max(r1, r2));
        lemma_sorted_desc_first_max(sorted@, rank_max(r1, r2));
    }
    let h = Hand { hand_type: HandType::TwoPair, cards: sorted, player };
    proof {
        assert(hand_sound(h, cs)) by {
            assert(h.cards@.to_multiset() == rank_filter(cs, r1).to_multiset().add(
                rank_filter(cs, r2).to_multiset(),
            ));
            assert(r1 != r2 && cnt_rank(cs, r1) == 2 && cnt_rank(cs, r2) == 2);
        }
        assert(top_rank(h) == rank_max(r1, r2));
    }
    h
}

/// Pushes the cross product of every two-group hand with every *other*
/// two-group hand, each combination concatenated and sorted descending.
fn push_twopairs(ret: &mut Vec<Hand>, player: usize, cards: &[Card])
    requires
        all_owned_sound(old(ret)@, cards@, player),
        complete_group(old(ret)@, cards@, 2, HandType::Pair),
    ensures
        all_owned_sound(final(ret)@, cards@, player),
        old(ret)@.is_prefix_of(final(ret)@),
        complete_twopair(final(ret)@, cards@),
{
    let ghost cs = cards@;
    let ghost base = ret@;
    let n = ret.len();
    let mut aux: Vec<Hand> = Vec::new();
    let mut i: usize = 0;
    while i < n
        invariant
            cs == cards@,
            ret@ == base,
            n == base.len(),
            i <= n,
            all_owned_sound(base, cs, player),
            all_owned_sound(aux@, cs, player),
            forall|a: int, b: int|
                #![trigger base[a], base[b]]
                0 <= a < i && 0 <= b < n ==> tp_pair_done(base, aux@, a, b),
        decreases n - i,
    {
        if hand_type_index(ret[i].hand_type) == 1 {
            proof {
                assert(ret@[i as int].hand_type == HandType::Pair) by {
                    lemma_ht_idx_injective(ret@[i as int].hand_type, HandType::Pair);
                }
            }
            let mut j: usize = 0;
            while j < n
                invariant
                    cs == cards@,
                    ret@ == base,
                    n == base.len(),
                    i < n,
                    j <= n,
                    base[i as int].hand_type == HandType::Pair,
                    all_owned_sound(base, cs, player),
                    all_owned_sound(aux@, cs, player),
                    forall|a: int, b: int|
                        #![trigger base[a], base[b]]
                        0 <= a < i && 0 <= b < n ==> tp_pair_done(base, aux@, a, b),
                    forall|b: int| 0 <= b < j ==> tp_pair_done(base, aux@, i as int, b),
                decreases n - j,
            {
                let ghost aux_prev = aux@;
                if hand_type_index(ret[j].hand_type) == 1 && !hand_eq_exec(&ret[i], &ret[j]) {
                    proof {
                        assert(ret@[j as int].hand_type == HandType::Pair) by {
                            lemma_ht_idx_injective(ret@[j as int].hand_type, HandType::Pair);
                        }
                    }
                    let h = build_twopair(&ret[i], &ret[j], player, cards);
                    aux.push(h);
                    proof {
                        assert(has_class(
                            aux@,
                            HandType::TwoPair,
                            rank_max(top_rank(base[i as int]), top_rank(base[j as int])),
                        )) by {
                            assert((#[trigger] aux@[aux@.len() - 1]) == h);
                        }
                    }
                }
                proof {
                    assert(aux_prev.is_prefix_of(aux@)) by {
                        assert(aux@.subrange(0, aux_prev.len() as int) =~= aux_prev);
                    }
                    assert forall|a: int, b: int|
                        #![trigger base[a], base[b]]
                        0 <= a < i && 0 <= b < n implies tp_pair_done(base, aux@, a, b) by {
                        if base[a].hand_type == HandType::Pair && base[b].hand_type
                            == HandType::Pair && !hand_eq_spec(base[a], base[b]) {
                            assert(tp_pair_done(base, aux_prev, a, b));
                            lemma_has_class_prefix(
                                aux_prev,
                                aux@,
                                HandType::TwoPair,
                                rank_max(top_rank(base[a]), top_rank(base[b])),
                            );
                        }
                    }
                    assert forall|b: int| 0 <= b < j + 1 implies tp_pair_done(
                        base,
                        aux@,
                        i as int,
                        b,
                    ) by {
                        if b < j && base[i as int].hand_type == HandType::Pair && base[b].hand_type
                            == HandType::Pair && !hand_eq_spec(base[i as int], base[b]) {
                            assert(tp_pair_done(base, aux_prev, i as int, b));
                            lemma_has_class_prefix(
                                aux_prev,
                                aux@,
                                HandType::TwoPair,
                                rank_max(top_rank(base[i as int]), top_rank(base[b])),
                            );
                        }
                    }
                }
                j += 1;
            }
        }
        i += 1;
    }
    let ghost pre_aux = aux@;
    ret.append(&mut aux);
    proof {
        assert(base.is_prefix_of(ret@)) by {
            assert(ret@.subrange(0, base.len() as int) =~= base);
        }
        assert forall|k: int|
            0 <= k < ret@.len() implies (#[trigger] ret@[k]).player == player && hand_sound(
            ret@[k],
            cs,
        ) by {
            if k >= base.len() {
                assert(ret@[k] == pre_aux[k - base.len()]);
            }
        }
        assert forall|ci: int, cj: int|
            #![trigger cs[ci], cs[cj]]
            0 <= ci < cs.len() && 0 <= cj < cs.len() && rank_of(cs[ci]) != rank_of(cs[cj])
                && cnt_rank(cs, rank_of(cs[ci])) == 2 && cnt_rank(cs, rank_of(cs[cj]))
                == 2 implies has_class(
            ret@,
            HandType::TwoPair,
            rank_max(rank_of(cs[ci]), rank_of(cs[cj])),
        ) by {
            assert(has_class(base, HandType::Pair, rank_of(cs[ci])));
            assert(has_class(base, HandType::Pair, rank_of(cs[cj])));
            let a = choose|a: int|
                0 <= a < base.len() && (#[trigger] base[a]).hand_type == HandType::Pair && top_rank(
                    base[a],
                ) == rank_of(cs[ci]);
            let b = choose|b: int|
                0 <= b < base.len() && (#[trigger] base[b]).hand_type == HandType::Pair && top_rank(
                    base[b],
                ) == rank_of(cs[cj]);
            assert(!hand_eq_spec(base[a], base[b]));
            assert(tp_pair_done(base, pre_aux, a, b));
            let k = choose|k: int|
                0 <= k < pre_aux.len() && (#[trigger] pre_aux[k]).hand_type == HandType::TwoPair
                    && top_rank(pre_aux[k]) == rank_max(rank_of(cs[ci]), rank_of(cs[cj]));
            assert((#[trigger] ret@[base.len() + k]).hand_type == HandType::TwoPair && top_rank(
                ret@[base.len() + k],
            ) == rank_max(rank_of(cs[ci]), rank_of(cs[cj])));
        }
    }
}

/// Each completeness clause survives growing the catalogue at the end,
/// reordering it, and collapsing it to hand-equal representatives. `rel`
/// says which of the three relations links the two catalogues.
pub open spec fn catalogue_extends(a: Seq<Hand>, b: Seq<Hand>, rel: int) -> bool {
    if rel == 0 {
        a.is_prefix_of(b)
    } else if rel == 1 {
        a.to_multiset() == b.to_multiset()
    } else if rel == 2 {
        forall|i: int| 0 <= i < a.len() ==> has_eq_hand(b, #[trigger] a[i])
    } else {
        forall|i: int| 0 <= i < a.len() ==> b.contains(#[trigger] a[i])
    }
}

/// Carries one hand class across a catalogue extension.
proof fn lemma_class_carries(a: Seq<Hand>, b: Seq<Hand>, rel: int, t: HandType, top: u8)
    requires
        catalogue_extends(a, b, rel),
        has_class(a, t, top),
    ensures
        has_class(b, t, top),
{
    if rel == 0 {
        lemma_has_class_prefix(a, b, t, top);
    } else if rel == 1 {
        lemma_has_class_multiset(a, b, t, top);
    } else if rel == 2 {
        lemma_has_class_rep(a, b, t, top);
    } else {
        let j = choose|j: int|
            0 <= j < a.len() && (#[trigger] a[j]).hand_type == t && top_rank(a[j]) == top;
        assert(b.contains(a[j]));
        let k = choose|k: int| 0 <= k < b.len() && b[k] == a[j];
        assert((#[trigger] b[k]).hand_type == t && top_rank(b[k]) == top);
    }
}

/// Carries one hand class bound across a catalogue extension.
proof fn lemma_class_geq_carries(a: Seq<Hand>, b: Seq<Hand>, rel: int, t: HandType, top: u8)
    requires
        catalogue_extends(a, b, rel),
        has_class_geq(a, t, top),
    ensures
        has_class_geq(b, t, top),
{
    if rel == 0 {
        lemma_has_class_geq_prefix(a, b, t, top);
    } else if rel == 1 {
        lemma_has_class_geq_multiset(a, b, t, top);
    } else if rel == 2 {
        lemma_has_class_geq_rep(a, b, t, top);
    } else {
        let j = choose|j: int|
            0 <= j < a.len() && (#[trigger] a[j]).hand_type == t && top_rank(a[j]) >= top;
        assert(b.contains(a[j]));
        let k = choose|k: int| 0 <= k < b.len() && b[k] == a[j];
        assert((#[trigger] b[k]).hand_type == t && top_rank(b[k]) >= top);
    }
}

/// Carries the straight-flush completeness clause across an extension.
proof fn lemma_sflush_carries(a: Seq<Hand>, b: Seq<Hand>, rel: int, cs: Seq<Card>)
    requires
        catalogue_extends(a, b, rel),
        complete_sflush(a, cs),
    ensures
        complete_sflush(b, cs),
{
    assert forall|i: int|
        0 <= i < cs.len() && sflush_from(cs, rank_of(#[trigger] cs[i]) as int, cs[i].col)
        implies has_class(b, HandType::StraightFlush, rank_of(cs[i])) by {
        lemma_class_carries(a, b, rel, HandType::StraightFlush, rank_of(cs[i]));
    }
}

/// Carries the straight completeness clause across an extension.
proof fn lemma_straight_carries(a: Seq<Hand>, b: Seq<Hand>, rel: int, cs: Seq<Card>)
    requires
        catalogue_extends(a, b, rel),
        complete_straight(a, cs),
    ensures
        complete_straight(b, cs),
{
    assert forall|i: int|
        0 <= i < cs.len() && straight_from(cs, rank_of(#[trigger] cs[i]) as int) implies has_class(
        b,
        HandType::Straight,
        rank_of(cs[i]),
    ) by {
        lemma_class_carries(a, b, rel, HandType::Straight, rank_of(cs[i]));
    }
}

/// Carries the flush completeness clause across an extension.
proof fn lemma_flush_carries(a: Seq<Hand>, b: Seq<Hand>, rel: int, cs: Seq<Card>)
    requires
        catalogue_extends(a, b, rel),
        complete_flush(a, cs),
    ensures
        complete_flush(b, cs),
{
    assert forall|i: int|
        0 <= i < cs.len() && cnt_suit(cs, (#[trigger] cs[i]).col) >= 5 implies has_class_geq(
        b,
        HandType::Flush,
        rank_of(cs[i]),
    ) by {
        lemma_class_geq_carries(a, b, rel, HandType::Flush, rank_of(cs[i]));
    }
}

/// Carries a rank-group completeness clause across an extension.
proof fn lemma_group_carries(a: Seq<Hand>, b: Seq<Hand>, rel: int, cs: Seq<Card>, n: nat, t: HandType)
    requires
        catalogue_extends(a, b, rel),
        complete_group(a, cs, n, t),
    ensures
        complete_group(b, cs, n, t),
{
    assert forall|i: int|
        0 <= i < cs.len() && cnt_rank(cs, rank_of(#[trigger] cs[i])) == n implies has_class(
        b,
        t,
        rank_of(cs[i]),
    ) by {
        lemma_class_carries(a, b, rel, t, rank_of(cs[i]));
    }
}

/// Carries the high-card completeness clause across an extension.
proof fn lemma_high_carries(a: Seq<Hand>, b: Seq<Hand>, rel: int, cs: Seq<Card>)
    requires
        catalogue_extends(a, b, rel),
        complete_high(a, cs),
    ensures
        complete_high(b, cs),
{
    assert forall|i: int| 0 <= i < cs.len() implies has_class(
        b,
        HandType::HighCard,
        rank_of(#[trigger] cs[i]),
    ) by {
        lemma_class_carries(a, b, rel, HandType::HighCard, rank_of(cs[i]));
    }
}

/// Carries the full-house completeness clause across an extension.
proof fn lemma_fullhouse_carries(a: Seq<Hand>, b: Seq<Hand>, rel: int, cs: Seq<Card>)
    requires
        catalogue_extends(a, b, rel),
        complete_fullhouse(a, cs),
    ensures
        complete_fullhouse(b, cs),
{
    assert forall|i: int, j: int|
        #![trigger cs[i], cs[j]]
        0 <= i < cs.len() && 0 <= j < cs.len() && cnt_rank(cs, rank_of(cs[i])) == 3 && cnt_rank(
            cs,
            rank_of(cs[j]),
        ) == 2 implies has_class(
        b,
        HandType::FullHouse,
        rank_max(rank_of(cs[i]), rank_of(cs[j])),
    ) by {
        lemma_class_carries(a, b, rel, HandType::FullHouse, rank_max(rank_of(cs[i]), rank_of(cs[j])));
    }
}

/// Carries the two-pair completeness clause across an extension.
proof fn lemma_twopair_carries(a: Seq<Hand>, b: Seq<Hand>, rel: int, cs: Seq<Card>)
    requires
        catalogue_extends(a, b, rel),
        complete_twopair(a, cs),
    ensures
        complete_twopair(b, cs),
{
    assert forall|i: int, j: int|
        #![trigger cs[i], cs[j]]
        0 <= i < cs.len() && 0 <= j < cs.len() && rank_of(cs[i]) != rank_of(cs[j]) && cnt_rank(
            cs,
            rank_of(cs[i]),
        ) == 2 && cnt_rank(cs, rank_of(cs[j])) == 2 implies has_class(
        b,
        HandType::TwoPair,
        rank_max(rank_of(cs[i]), rank_of(cs[j])),
    ) by {
        lemma_class_carries(a, b, rel, HandType::TwoPair, rank_max(rank_of(cs[i]), rank_of(cs[j])));
    }
}

/// The card set supports at least one hand of category `t`.
pub open spec fn has_cat(cs: Seq<Card>, t: HandType) -> bool {
    match t {
        HandType::HighCard => cs.len() >= 1,
        HandType::Pair => exists|r: u8| #[trigger] cnt_rank(cs, r) == 2,
        HandType::ThreeOfAKind => exists|r: u8| #[trigger] cnt_rank(cs, r) == 3,
        HandType::FourOfAKind => exists|r: u8| #[trigger] cnt_rank(cs, r) == 4,
        HandType::TwoPair => exists|r1: u8, r2: u8|
            r1 != r2 && #[trigger] cnt_rank(cs, r1) == 2 && #[trigger] cnt_rank(cs, r2) == 2,
        HandType::FullHouse => exists|r1: u8, r2: u8|
            #[trigger] cnt_rank(cs, r1) == 3 && #[trigger] cnt_rank(cs, r2) == 2,
        HandType::Straight => exists|i: int|
            0 <= i < cs.len() && straight_from(cs, rank_of(#[trigger] cs[i]) as int),
        HandType::Flush => exists|s: char| #[trigger] cnt_suit(cs, s) >= 5,
        HandType::StraightFlush => exists|i: int|
            0 <= i < cs.len() && sflush_from(cs, rank_of(#[trigger] cs[i]) as int, cs[i].col),
    }
}

/// The best category the card set supports.
pub open spec fn best_cat(cs: Seq<Card>) -> HandType {
    if has_cat(cs, HandType::StraightFlush) {
        HandType::StraightFlush
    } else if has_cat(cs, HandType::FourOfAKind) {
        HandType::FourOfAKind
    } else if has_cat(cs, HandType::FullHouse) {
        HandType::FullHouse
    } else if has_cat(cs, HandType::Flush) {
        HandType::Flush
    } else if has_cat(cs, HandType::Straight) {
        HandType::Straight
    } else if has_cat(cs, HandType::ThreeOfAKind) {
        HandType::ThreeOfAKind
    } else if has_cat(cs, HandType::TwoPair) {
        HandType::TwoPair
    } else if has_cat(cs, HandType::Pair) {
        HandType::Pair
    } else {
        HandType::HighCard
    }
}

/// A nonempty rank filter pinpoints a card of that rank.
pub proof fn lemma_rank_filter_nonempty(cs: Seq<Card>, r: u8)
    requires
        rank_filter(cs, r).len() >= 1,
    ensures
        exists|i: int| 0 <= i < cs.len() && rank_of(#[trigger] cs[i]) == r,
    decreases cs.len(),
{
    reveal(Seq::filter);
    if cs.len() > 0 {
        if rank_of(cs.last()) == r {
            assert(rank_of(cs[cs.len() - 1]) == r);
        } else {
            lemma_rank_filter_nonempty(cs.drop_last(), r);
            let i = choose|i: int|
                0 <= i < cs.drop_last().len() && rank_of(#[trigger] cs.drop_last()[i]) == r;
            assert(rank_of(cs[i]) == r);
        }
    }
}

/// A nonempty suit filter pinpoints a card of that suit.
pub proof fn lemma_suit_filter_nonempty(cs: Seq<Card>, s: char)
    requires
        suit_filter(cs, s).len() >= 1,
    ensures
        exists|i: int| 0 <= i < cs.len() && (#[trigger] cs[i]).col == s,
    decreases cs.len(),
{
    reveal(Seq::filter);
    if cs.len() > 0 {
        if cs.last().col == s {
            assert(cs[cs.len() - 1].col == s);
        } else {
            lemma_suit_filter_nonempty(cs.drop_last(), s);
            let i = choose|i: int|
                0 <= i < cs.drop_last().len() && (#[trigger] cs.drop_last()[i]).col == s;
            assert(cs[i].col == s);
        }
    }
}

/// A sound hand of category `t` shows the card set supports `t`.
proof fn lemma_sound_has_cat(h: Hand, cs: Seq<Card>)
    requires
        hand_sound(h, cs),
    ensures
        has_cat(cs, h.hand_type),
{
    broadcast use vstd::seq_lib::group_to_multiset_ensures;

    match h.hand_type {
        HandType::HighCard => {
            assert(cs.contains(h.cards@[0]));
            let w = choose|w: int| 0 <= w < cs.len() && cs[w] == h.cards@[0];
            assert(cs.len() >= 1);
        },
        HandType::Pair => {
            assert(cnt_rank(cs, top_rank(h)) == 2);
        },
        HandType::ThreeOfAKind => {
            assert(cnt_rank(cs, top_rank(h)) == 3);
        },
        HandType::FourOfAKind => {
            assert(cnt_rank(cs, top_rank(h)) == 4);
        },
        HandType::TwoPair => {},
        HandType::FullHouse => {},
        HandType::Straight => {
            assert(cs.contains(h.cards@[0]));
            let w = choose|w: int| 0 <= w < cs.len() && cs[w] == h.cards@[0];
            assert forall|d: int| 1 <= d < 5 implies #[trigger] has_rank(
                cs,
                rank_of(cs[w]) as int - d,
            ) by {
                assert(cs.contains(h.cards@[d]));
                let u = choose|u: int| 0 <= u < cs.len() && cs[u] == h.cards@[d];
                assert(rank_of(cs[u]) == rank_of(cs[w]) - d);
            }
            assert(straight_from(cs, rank_of(cs[w]) as int));
        },
        HandType::StraightFlush => {
            assert(cs.contains(h.cards@[0]));
            let w = choose|w: int| 0 <= w < cs.len() && cs[w] == h.cards@[0];
            assert forall|d: int| 1 <= d < 5 implies #[trigger] has_rank_suit(
                cs,
                rank_of(cs[w]) as int - d,
                cs[w].col,
            ) by {
                assert(cs.contains(h.cards@[d]));
                let u = choose|u: int| 0 <= u < cs.len() && cs[u] == h.cards@[d];
                assert(rank_of(cs[u]) == rank_of(cs[w]) - d);
                assert(cs[u].col == h.cards@[0].col);
            }
            assert(sflush_from(cs, rank_of(cs[w]) as int, cs[w].col));
        },
        HandType::Flush => {
            let s = h.cards@[0].col;
            assert(h.cards@.to_multiset().len() == suit_filter(cs, s).to_multiset().len());
            assert(cnt_suit(cs, s) >= 5);
        },
    }
}

/// A supported category has a representative in a complete catalogue.
proof fn lemma_has_cat_has_hand(hands: Seq<Hand>, cs: Seq<Card>, t: HandType)
    requires
        has_cat(cs, t),
        complete_sflush(hands, cs),
        complete_flush(hands, cs),
        complete_straight(hands, cs),
        complete_group(hands, cs, 4, HandType::FourOfAKind),
        complete_group(hands, cs, 3, HandType::ThreeOfAKind),
        complete_group(hands, cs, 2, HandType::Pair),
        complete_high(hands, cs),
        complete_fullhouse(hands, cs),
        complete_twopair(hands, cs),
    ensures
        exists|j: int| 0 <= j < hands.len() && (#[trigger] hands[j]).hand_type == t,
{
    match t {
        HandType::HighCard => {
            assert(has_class(hands, HandType::HighCard, rank_of(cs[0])));
            let j = choose|j: int|
                0 <= j < hands.len() && (#[trigger] hands[j]).hand_type == HandType::HighCard
                    && top_rank(hands[j]) == rank_of(cs[0]);
            assert((#[trigger] hands[j]).hand_type == t);
        },
        HandType::Pair => {
            let r = choose|r: u8| #[trigger] cnt_rank(cs, r) == 2;
            lemma_rank_filter_nonempty(cs, r);
            let i = choose|i: int| 0 <= i < cs.len() && rank_of(#[trigger] cs[i]) == r;
            assert(has_class(hands, HandType::Pair, rank_of(cs[i])));
            let j = choose|j: int|
                0 <= j < hands.len() && (#[trigger] hands[j]).hand_type == HandType::Pair
                    && top_rank(hands[j]) == rank_of(cs[i]);
            assert((#[trigger] hands[j]).hand_type == t);
        },
        HandType::ThreeOfAKind => {
            let r = choose|r: u8| #[trigger] cnt_rank(cs, r) == 3;
            lemma_rank_filter_nonempty(cs, r);
            let i = choose|i: int| 0 <= i < cs.len() && rank_of(#[trigger] cs[i]) == r;
            assert(has_class(hands, HandType::ThreeOfAKind, rank_of(cs[i])));
            let j = choose|j: int|
                0 <= j < hands.len() && (#[trigger] hands[j]).hand_type == HandType::ThreeOfAKind
                    && top_rank(hands[j]) == rank_of(cs[i]);
            assert((#[trigger] hands[j]).hand_type == t);
        },
        HandType::FourOfAKind => {
            let r = choose|r: u8| #[trigger] cnt_rank(cs, r) == 4;
            lemma_rank_filter_nonempty(cs, r);
            let i = choose|i: int| 0 <= i < cs.len() && rank_of(#[trigger] cs[i]) == r;
            assert(has_class(hands, HandType::FourOfAKind, rank_of(cs[i])));
            let j = choose|j: int|
                0 <= j < hands.len() && (#[trigger] hands[j]).hand_type == HandType::FourOfAKind
                    && top_rank(hands[j]) == rank_of(cs[i]);
            assert((#[trigger] hands[j]).hand_type == t);
        },
        HandType::TwoPair => {
            let (r1, r2) = choose|r1: u8, r2: u8|
                r1 != r2 && #[trigger] cnt_rank(cs, r1) == 2 && #[trigger] cnt_rank(cs, r2) == 2;
            lemma_rank_filter_nonempty(cs, r1);
            lemma_rank_filter_nonempty(cs, r2);
            let i = choose|i: int| 0 <= i < cs.len() && rank_of(#[trigger] cs[i]) == r1;
            let k = choose|k: int| 0 <= k < cs.len() && rank_of(#[trigger] cs[k]) == r2;
            assert(has_class(hands, HandType::TwoPair, rank_max(rank_of(cs[i]), rank_of(cs[k]))));
            let j = choose|j: int|
                0 <= j < hands.len() && (#[trigger] hands[j]).hand_type == HandType::TwoPair
                    && top_rank(hands[j]) == rank_max(rank_of(cs[i]), rank_of(cs[k]));
            assert((#[trigger] hands[j]).hand_type == t);
        },
        HandType::FullHouse => {
            let (r1, r2) = choose|r1: u8, r2: u8|
                #[trigger] cnt_rank(cs, r1) == 3 && #[trigger] cnt_rank(cs, r2) == 2;
            lemma_rank_filter_nonempty(cs, r1);
            lemma_rank_filter_nonempty(cs, r2);
            let i = choose|i: int| 0 <= i < cs.len() && rank_of(#[trigger] cs[i]) == r1;
            let k = choose|k: int| 0 <= k < cs.len() && rank_of(#[trigger] cs[k]) == r2;
            assert(has_class(hands, HandType::FullHouse, rank_max(rank_of(cs[i]), rank_of(cs[k]))));
            let j = choose|j: int|
                0 <= j < hands.len() && (#[trigger] hands[j]).hand_type == HandType::FullHouse
                    && top_rank(hands[j]) == rank_max(rank_of(cs[i]), rank_of(cs[k]));
            assert((#[trigger] hands[j]).hand_type == t);
        },
        HandType::Straight => {
            let i = choose|i: int|
                0 <= i < cs.len() && straight_from(cs, rank_of(#[trigger] cs[i]) as int);
            assert(has_class(hands, HandType::Straight, rank_of(cs[i])));
            let j = choose|j: int|
                0 <= j < hands.len() && (#[trigger] hands[j]).hand_type == HandType::Straight
                    && top_rank(hands[j]) == rank_of(cs[i]);
            assert((#[trigger] hands[j]).hand_type == t);
        },
        HandType::Flush => {
            let s = choose|s: char| #[trigger] cnt_suit(cs, s) >= 5;
            lemma_suit_filter_nonempty(cs, s);
            let i = choose|i: int| 0 <= i < cs.len() && (#[trigger] cs[i]).col == s;
            assert(has_class_geq(hands, HandType::Flush, rank_of(cs[i])));
            let j = choose|j: int|
                0 <= j < hands.len() && (#[trigger] hands[j]).hand_type == HandType::Flush
                    && top_rank(hands[j]) >= rank_of(cs[i]);
            assert((#[trigger] hands[j]).hand_type == t);
        },
        HandType::StraightFlush => {
            let i = choose|i: int|
                0 <= i < cs.len() && sflush_from(cs, rank_of(#[trigger] cs[i]) as int, cs[i].col);
            assert(has_class(hands, HandType::StraightFlush, rank_of(cs[i])));
            let j = choose|j: int|
                0 <= j < hands.len() && (#[trigger] hands[j]).hand_type == HandType::StraightFlush
                    && top_rank(hands[j]) == rank_of(cs[i]);
            assert((#[trigger] hands[j]).hand_type == t);
        },
    }
}

/// The last hand of the catalogue `Hand::find_all` returns carries the
/// best category the card set supports.
pub proof fn lemma_last_is_best(hands: Seq<Hand>, cs: Seq<Card>, player: usize)
    requires
        cs.len() >= 1,
        all_owned_sound(hands, cs, player),
        forall|i: int, j: int| 0 <= i < j < hands.len() ==> class_lt(hands[i], hands[j]),
        complete_sflush(hands, cs),
        complete_flush(hands, cs),
        complete_straight(hands, cs),
        complete_group(hands, cs, 4, HandType::FourOfAKind),
        complete_group(hands, cs, 3, HandType::ThreeOfAKind),
        complete_group(hands, cs, 2, HandType::Pair),
        complete_high(hands, cs),
        complete_fullhouse(hands, cs),
        complete_twopair(hands, cs),
    ensures
        hands.len() >= 1,
        hands[hands.len() - 1].hand_type == best_cat(cs),
{
    assert(has_class(hands, HandType::HighCard, rank_of(cs[0])));
    assert(hands.len() >= 1) by {
        let j = choose|j: int|
            0 <= j < hands.len() && (#[trigger] hands[j]).hand_type == HandType::HighCard
                && top_rank(hands[j]) == rank_of(cs[0]);
    }
    let n1 = hands.len() - 1;
    let bt = hands[n1].hand_type;
    let bb = best_cat(cs);
    assert(hand_sound(hands[n1], cs));
    lemma_sound_has_cat(hands[n1], cs);
    // the best supported category really is supported
    assert(has_cat(cs, bb));
    lemma_has_cat_has_hand(hands, cs, bb);
    let j = choose|j: int| 0 <= j < hands.len() && (#[trigger] hands[j]).hand_type == bb;
    if j < n1 {
        assert(class_lt(hands[j], hands[n1]));
    }
    assert(ht_idx(bb) <= ht_idx(bt));
    // and no supported category outranks it
    assert(ht_idx(bt) <= ht_idx(bb));
    lemma_ht_idx_injective(bt, bb);
}

/// The catalogue holds every hand the card set supports: all nine
/// per-category completeness clauses at once.
pub open spec fn catalogue_complete_for(hs: Seq<Hand>, cs: Seq<Card>) -> bool {
    &&& complete_sflush(hs, cs)
    &&& complete_flush(hs, cs)
    &&& complete_straight(hs, cs)
    &&& complete_group(hs, cs, 4, HandType::FourOfAKind)
    &&& complete_group(hs, cs, 3, HandType::ThreeOfAKind)
    &&& complete_group(hs, cs, 2, HandType::Pair)
    &&& complete_high(hs, cs)
    &&& complete_fullhouse(hs, cs)
    &&& complete_twopair(hs, cs)
}

/// Completeness for a card set carries across any catalogue extension.
pub proof fn lemma_complete_for_carries(a: Seq<Hand>, b: Seq<Hand>, rel: int, cs: Seq<Card>)
    requires
        catalogue_extends(a, b, rel),
        catalogue_complete_for(a, cs),
    ensures
        catalogue_complete_for(b, cs),
{
    lemma_sflush_carries(a, b, rel, cs);
    lemma_flush_carries(a, b, rel, cs);
    lemma_straight_carries(a, b, rel, cs);
    lemma_group_carries(a, b, rel, cs, 4, HandType::FourOfAKind);
    lemma_group_carries(a, b, rel, cs, 3, HandType::ThreeOfAKind);
    lemma_group_carries(a, b, rel, cs, 2, HandType::Pair);
    lemma_high_carries(a, b, rel, cs);
    lemma_fullhouse_carries(a, b, rel, cs);
    lemma_twopair_carries(a, b, rel, cs);
}

/// In a catalogue sorted strictly by hand order — as `Hand::find_all`
/// returns it — no two hands share a (category, top-card) pair.
pub proof fn lemma_catalogue_no_duplicates(hands: Seq<Hand>, i: int, j: int)
    requires
        forall|a: int, b: int| 0 <= a < b < hands.len() ==> class_lt(hands[a], hands[b]),
        0 <= i < hands.len(),
        0 <= j < hands.len(),
        i != j,
    ensures
        !(hands[i].hand_type == hands[j].hand_type && top_rank(hands[i]) == top_rank(hands[j])),
{
    if i < j {
        assert(class_lt(hands[i], hands[j]));
    } else {
        assert(class_lt(hands[j], hands[i]));
    }
}

/// A straight or straight flush runs downward through valid ranks only:
/// the lowest rank has no predecessor, so no run wraps around from the
/// bottom of the rank alphabet back to the top, and every such hand tops
/// out at least five rank positions up.
pub proof fn lemma_straight_no_wraparound(h: Hand, cs: Seq<Card>)
    requires
        forall|i: int| 0 <= i < cs.len() ==> valid_card(#[trigger] cs[i]),
        hand_sound(h, cs),
        h.hand_type == HandType::Straight || h.hand_type == HandType::StraightFlush,
    ensures
        h.cards@.len() == 5,
        forall|k: int| 0 <= k < 5 ==> rank_of(#[trigger] h.cards@[k]) == top_rank(h) - k,
        rank_of(h.cards@[4]) >= 1,
        5 <= top_rank(h) <= 13,
{
    assert(cs.contains(h.cards@[4]));
    let w = choose|w: int| 0 <= w < cs.len() && cs[w] == h.cards@[4];
    assert(valid_card(cs[w]));
    assert(rank_of(h.cards@[0]) <= 13);
}

impl Hand {
    /// Builds a hand of the given category from two-character card codes,
    /// owned by participant `0`.
    pub fn test_new(ht: HandType, cards: Vec<&str>) -> (h: Hand)
        requires
            forall|i: int| 0 <= i < cards@.len() ==> (#[trigger] cards@[i])@.len() >= 2,
        ensures
            h.hand_type == ht,
            h.player == 0,
            h.cards@.len() == cards@.len(),
            forall|i: int|
                0 <= i < cards@.len() ==> (#[trigger] h.cards@[i]).fig == cards@[i]@[0]
                    && h.cards@[i].col == cards@[i]@[1],
    {
        let mut vec: Vec<Card> = Vec::new();
        let mut k: usize = 0;
        while k < cards.len()
            invariant
                k <= cards@.len(),
                vec@.len() == k,
                forall|i: int| 0 <= i < cards@.len() ==> (#[trigger] cards@[i])@.len() >= 2,
                forall|i: int|
                    0 <= i < k ==> (#[trigger] vec@[i]).fig == cards@[i]@[0] && vec@[i].col
                        == cards@[i]@[1],
            decreases cards@.len() - k,
        {
            vec.push(Card::new(cards[k]));
            k += 1;
        }
        Hand { hand_type: ht, cards: vec, player: 0 }
    }

    /// Classifies an arbitrary card set: returns **every** hand the set
    /// supports, tagged with `player`, sorted ascending by hand order and
    /// deduplicated so that no two returned hands share a (category,
    /// top-card) pair.
    pub fn find_all(player: usize, cards: &[Card]) -> (hands: Vec<Hand>)
        requires
            forall|i: int| 0 <= i < cards@.len() ==> valid_card(#[trigger] cards@[i]),
        ensures
            all_owned_sound(hands@, cards@, player),
            forall|i: int, j: int| 0 <= i < j < hands@.len() ==> class_lt(hands@[i], hands@[j]),
            complete_sflush(hands@, cards@),
            complete_flush(hands@, cards@),
            complete_straight(hands@, cards@),
            complete_group(hands@, cards@, 4, HandType::FourOfAKind),
            complete_group(hands@, cards@, 3, HandType::ThreeOfAKind),
            complete_group(hands@, cards@, 2, HandType::Pair),
            complete_high(hands@, cards@),
            complete_fullhouse(hands@, cards@),
            complete_twopair(hands@, cards@),
    {
        let ghost cs = cards@;
        let mut ret: Vec<Hand> = Vec::new();

        push_straight_runs(&mut ret, player, cards, true);
        let ghost g1 = ret@;
        push_flushes(&mut ret, player, cards);
        proof {
            lemma_sflush_carries(g1, ret@, 0, cs);
        }
        let ghost g2 = ret@;
        push_straight_runs(&mut ret, player, cards, false);
        proof {
            lemma_sflush_carries(g2, ret@, 0, cs);
            lemma_flush_carries(g2, ret@, 0, cs);
        }
        let ghost g3 = ret@;
        push_rank_groups(&mut ret, player, cards, 4, HandType::FourOfAKind);
        proof {
            lemma_sflush_carries(g3, ret@, 0, cs);
            lemma_flush_carries(g3, ret@, 0, cs);
            lemma_straight_carries(g3, ret@, 0, cs);
        }
        let ghost g4 = ret@;
        push_rank_groups(&mut ret, player, cards, 3, HandType::ThreeOfAKind);
        proof {
            lemma_sflush_carries(g4, ret@, 0, cs);
            lemma_flush_carries(g4, ret@, 0, cs);
            lemma_straight_carries(g4, ret@, 0, cs);
            lemma_group_carries(g4, ret@, 0, cs, 4, HandType::FourOfAKind);
        }
        let ghost g5 = ret@;
        push_rank_groups(&mut ret, player, cards, 2, HandType::Pair);
        proof {
            lemma_sflush_carries(g5, ret@, 0, cs);
            lemma_flush_carries(g5, ret@, 0, cs);
            lemma_straight_carries(g5, ret@, 0, cs);
            lemma_group_carries(g5, ret@, 0, cs, 4, HandType::FourOfAKind);
            lemma_group_carries(g5, ret@, 0, cs, 3, HandType::ThreeOfAKind);
        }
        let ghost g6 = ret@;
        push_high_cards(&mut ret, player, cards);
        proof {
            lemma_sflush_carries(g6, ret@, 0, cs);
            lemma_flush_carries(g6, ret@, 0, cs);
            lemma_straight_carries(g6, ret@, 0, cs);
            lemma_group_carries(g6, ret@, 0, cs, 4, HandType::FourOfAKind);
            lemma_group_carries(g6, ret@, 0, cs, 3, HandType::ThreeOfAKind);
            lemma_group_carries(g6, ret@, 0, cs, 2, HandType::Pair);
        }
        let ghost g7 = ret@;
        push_fullhouses(&mut ret, player, cards);
        proof {
            lemma_sflush_carries(g7, ret@, 0, cs);
            lemma_flush_carries(g7, ret@, 0, cs);
            lemma_straight_carries(g7, ret@, 0, cs);
            lemma_group_carries(g7, ret@, 0, cs, 4, HandType::FourOfAKind);
            lemma_group_carries(g7, ret@, 0, cs, 3, HandType::ThreeOfAKind);
            lemma_group_carries(g7, ret@, 0, cs, 2, HandType::Pair);
            lemma_high_carries(g7, ret@, 0, cs);
        }
        let ghost g8 = ret@;
        push_twopairs(&mut ret, player, cards);
        proof {
            lemma_sflush_carries(g8, ret@, 0, cs);
            lemma_flush_carries(g8, ret@, 0, cs);
            lemma_straight_carries(g8, ret@, 0, cs);
            lemma_group_carries(g8, ret@, 0, cs, 4, HandType::FourOfAKind);
            lemma_group_carries(g8, ret@, 0, cs, 3, HandType::ThreeOfAKind);
            lemma_group_carries(g8, ret@, 0, cs, 2, HandType::Pair);
            lemma_high_carries(g8, ret@, 0, cs);
            lemma_fullhouse_carries(g8, ret@, 0, cs);
        }

        let ghost g9 = ret@;
        let sorted = sort_hands(ret);
        proof {
            assert(catalogue_extends(g9, sorted@, 1));
            let ghost p = |h: Hand| h.player == player && hand_sound(h, cs);
            assert forall|k: int| 0 <= k < g9.len() implies #[trigger] p(g9[k]) by {
                assert(g9[k].player == player && hand_sound(g9[k], cs));
            }
            crate::seq_util::lemma_multiset_all(g9, sorted@, p);
            assert forall|k: int|
                0 <= k < sorted@.len() implies (#[trigger] sorted@[k]).player == player
                && hand_sound(sorted@[k], cs) by {
                assert(p(sorted@[k]));
            }
            lemma_sflush_carries(g9, sorted@, 1, cs);
            lemma_flush_carries(g9, sorted@, 1, cs);
            lemma_straight_carries(g9, sorted@, 1, cs);
            lemma_group_carries(g9, sorted@, 1, cs, 4, HandType::FourOfAKind);
            lemma_group_carries(g9, sorted@, 1, cs, 3, HandType::ThreeOfAKind);
            lemma_group_carries(g9, sorted@, 1, cs, 2, HandType::Pair);
            lemma_high_carries(g9, sorted@, 1, cs);
            lemma_fullhouse_carries(g9, sorted@, 1, cs);
            lemma_twopair_carries(g9, sorted@, 1, cs);
        }

        let ghost gs = sorted@;
        let out = dedup_hands(sorted);
        proof {
            assert(catalogue_extends(gs, out@, 2));
            assert forall|k: int|
                0 <= k < out@.len() implies (#[trigger] out@[k]).player == player && hand_sound(
                out@[k],
                cs,
            ) by {
                assert(gs.contains(out@[k]));
                let w = choose|w: int| 0 <= w < gs.len() && gs[w] == out@[k];
                assert(gs[w].player == player && hand_sound(gs[w], cs));
            }
            lemma_sflush_carries(gs, out@, 2, cs);
            lemma_flush_carries(gs, out@, 2, cs);
            lemma_straight_carries(gs, out@, 2, cs);
            lemma_group_carries(gs, out@, 2, cs, 4, HandType::FourOfAKind);
            lemma_group_carries(gs, out@, 2, cs, 3, HandType::ThreeOfAKind);
            lemma_group_carries(gs, out@, 2, cs, 2, HandType::Pair);
            lemma_high_carries(gs, out@, 2, cs);
            lemma_fullhouse_carries(gs, out@, 2, cs);
            lemma_twopair_carries(gs, out@, 2, cs);
        }
        out
    }
}

} // verus!
