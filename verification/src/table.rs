//! The table orchestrator: a multi-phase state machine that runs repeated
//! hands — lobby admission, dealing, blinds, betting streets, community
//! reveals and the showdown — until one participant holds all the chips.
//!
//! Chip conservation is stated on every phase that moves chips: the sum of
//! all stacks plus all street wagers plus the pot never changes except
//! where a hand's setup explicitly creates stacks.

use vstd::prelude::*;

use crate::card::{rank_char, valid_card, Card};
use crate::hand::{Hand, HandType};
use crate::message::Message;
use crate::player::{seat_sent, wager_clamp, Player, PlayerModel, Seat};
use crate::server::{
    lemma_sums_bound, lemma_sums_nonneg, lemma_sums_same, lemma_sums_update, seats_bets,
    seats_money, ServerData,
};

verus! {

/// The table and its match state.
pub struct Table {
    pub server: ServerData,
    pub bank: i32,
    pub shared: Vec<Card>,
    pub shared_visible: usize,
    pub max_bet: i32,
    pub dealer: isize,
    pub players: isize,
}

/// Every seat is a network participant.
pub open spec fn all_human(ps: Seq<Seat>) -> bool {
    forall|i: int| 0 <= i < ps.len() ==> (#[trigger] ps[i]) is Human
}

/// Every seat is well formed.
pub open spec fn all_seats_wf(ps: Seq<Seat>) -> bool {
    forall|i: int| 0 <= i < ps.len() ==> (#[trigger] ps[i]).wf()
}

/// No seat's connection has died.
pub open spec fn none_dead(ps: Seq<Seat>) -> bool {
    forall|i: int| 0 <= i < ps.len() ==> !(#[trigger] ps[i]).model().dead
}

/// Every seat is a blank lobby seat: no chips, no wager, no cards, not
/// folded.
pub open spec fn all_blank(ps: Seq<Seat>) -> bool {
    forall|i: int|
        0 <= i < ps.len() ==> {
            let m = (#[trigger] ps[i]).model();
            m.money == 0 && m.bet == 0 && m.fold == false && m.cards is None
        }
}

/// The views of a queue of lines.
pub open spec fn line_views(ls: Seq<String>) -> Seq<Seq<char>> {
    Seq::new(ls.len(), |i: int| ls[i]@)
}

/// The name a lobby seat holds after one pass drains its queue: an
/// already-bound name never changes; otherwise the first queued line that
/// parses as a `READY` command binds its name argument; other lines are
/// ignored.
pub open spec fn lobby_name(name: Option<Seq<char>>, lines: Seq<Seq<char>>) -> Option<Seq<char>>
    decreases lines.len(),
{
    if name is Some {
        name
    } else if lines.len() == 0 {
        None
    } else {
        let ts = crate::text::split_sp(lines[0]);
        if ts[0] == "READY"@ && ts.len() >= 2 {
            Some(ts[1])
        } else {
            lobby_name(name, lines.drop_first())
        }
    }
}

/// One lobby pass's effect on one seat: the queue is drained, the first
/// queued `READY` line binds a not-yet-bound name, everything else in the
/// participant's state is kept.
pub open spec fn lobby_drained(o: Seat, c: Seat) -> bool {
    o matches Seat::Human(h) && c matches Seat::Human(h2) && h2.model() == (PlayerModel {
        name: lobby_name(h.model().name, line_views(h.inbox@)),
        ..h.model()
    }) && h2.inbox@.len() == 0 && h2.conn == h.conn
}

/// How many seats have a display name bound.
pub open spec fn named_count(ps: Seq<Seat>) -> int
    decreases ps.len(),
{
    if ps.len() == 0 {
        0
    } else {
        named_count(ps.drop_last()) + if ps.last().model().name is Some {
            1int
        } else {
            0int
        }
    }
}

/// How many seats are neither folded nor all-in.
pub open spec fn active_count(ps: Seq<Seat>) -> int
    decreases ps.len(),
{
    if ps.len() == 0 {
        0
    } else {
        active_count(ps.drop_last()) + if !ps.last().model().fold && ps.last().model().money != 0 {
            1int
        } else {
            0int
        }
    }
}

/// How many seats still hold chips and a live connection.
pub open spec fn rich_alive_count(ps: Seq<Seat>) -> int
    decreases ps.len(),
{
    if ps.len() == 0 {
        0
    } else {
        rich_alive_count(ps.drop_last()) + if ps.last().model().money > 0
            && !ps.last().model().dead {
            1int
        } else {
            0int
        }
    }
}

/// The cards one participant is classified over at the showdown: the two
/// hole cards followed by the community cards.
pub open spec fn seat_cards(m: PlayerModel, sh: Seq<Card>) -> Seq<Card> {
    match m.cards {
        Some(c) => seq![c[0], c[1]] + sh,
        None => sh,
    }
}

/// Seat `w` owns a hand of the catalogue tying the strongest (category,
/// top card) class, the catalogue's last entry when sorted ascending.
pub open spec fn ties_strongest(cat: Seq<Hand>, w: int) -> bool {
    exists|t: int|
        0 <= t < cat.len() && (#[trigger] cat[t]).player as int == w && crate::hand::hand_eq_spec(
            cat[t],
            cat[cat.len() - 1],
        )
}

/// How many seats have not folded.
pub open spec fn nonfolded_count(ps: Seq<Seat>) -> int
    decreases ps.len(),
{
    if ps.len() == 0 {
        0
    } else {
        nonfolded_count(ps.drop_last()) + if !ps.last().model().fold {
            1int
        } else {
            0int
        }
    }
}

/// Counting one more seat adds its contribution to the non-folded count.
proof fn lemma_nonfolded_take_step(ps: Seq<Seat>, k: int)
    requires
        0 <= k < ps.len(),
    ensures
        nonfolded_count(ps.take(k + 1)) == nonfolded_count(ps.take(k)) + if !ps[k].model().fold {
            1int
        } else {
            0int
        },
{
    assert(ps.take(k + 1).drop_last() =~= ps.take(k));
    assert(ps.take(k + 1).last() == ps[k]);
}

/// With exactly one non-folded seat, two non-folded indices coincide.
proof fn lemma_nonfolded_unique(ps: Seq<Seat>, a: int, b: int)
    requires
        nonfolded_count(ps) == 1,
        0 <= a < ps.len(),
        0 <= b < ps.len(),
        !ps[a].model().fold,
        !ps[b].model().fold,
    ensures
        a == b,
{
    if a != b {
        let lo = if a < b {
            a
        } else {
            b
        };
        let hi = if a < b {
            b
        } else {
            a
        };
        lemma_nonfolded_two(ps, lo, hi);
    }
}

/// Two distinct non-folded indices put the non-folded count at two or more.
proof fn lemma_nonfolded_two(ps: Seq<Seat>, lo: int, hi: int)
    requires
        0 <= lo < hi < ps.len(),
        !ps[lo].model().fold,
        !ps[hi].model().fold,
    ensures
        nonfolded_count(ps) >= 2,
    decreases ps.len(),
{
    if hi == ps.len() - 1 {
        lemma_nonfolded_one(ps.drop_last(), lo);
    } else {
        assert(ps.drop_last()[lo] == ps[lo] && ps.drop_last()[hi] == ps[hi]);
        lemma_nonfolded_two(ps.drop_last(), lo, hi);
        lemma_nonfolded_nonneg_last(ps);
    }
}

/// One non-folded index puts the non-folded count at one or more.
proof fn lemma_nonfolded_one(ps: Seq<Seat>, i: int)
    requires
        0 <= i < ps.len(),
        !ps[i].model().fold,
    ensures
        nonfolded_count(ps) >= 1,
    decreases ps.len(),
{
    if i == ps.len() - 1 {
        lemma_nonfolded_nonneg(ps.drop_last());
    } else {
        assert(ps.drop_last()[i] == ps[i]);
        lemma_nonfolded_one(ps.drop_last(), i);
    }
}

/// The non-folded count is nonnegative.
proof fn lemma_nonfolded_nonneg(ps: Seq<Seat>)
    ensures
        nonfolded_count(ps) >= 0,
    decreases ps.len(),
{
    if ps.len() > 0 {
        lemma_nonfolded_nonneg(ps.drop_last());
    }
}

/// Dropping the last seat lowers the non-folded count by at most one.
proof fn lemma_nonfolded_nonneg_last(ps: Seq<Seat>)
    requires
        ps.len() > 0,
    ensures
        nonfolded_count(ps) >= nonfolded_count(ps.drop_last()),
{
}

/// All chips on the table: every stack, every street wager, and the pot.
pub open spec fn total_chips(t: Table) -> int {
    seats_money(t.server.players@) + seats_bets(t.server.players@) + t.bank
}

/// The seat-level part of the table invariant: the seat count matches,
/// every seat is named, well formed and holds nonnegative chips.
pub open spec fn seats_ok(t: Table) -> bool {
    &&& t.players as int == t.server.players@.len()
    &&& 1 <= t.players
    &&& t.server.players@.len() <= 0x7fff_ffff
    &&& forall|i: int|
        0 <= i < t.server.players@.len() ==> {
            let m = (#[trigger] t.server.players@[i]).model();
            m.money >= 0 && m.bet >= 0 && m.name is Some
        }
    &&& forall|i: int| 0 <= i < t.server.players@.len() ==> (#[trigger] t.server.players@[i]).wf()
    &&& t.bank >= 0
    &&& t.max_bet >= 0
}

/// The table invariant during a match: the seats are in order and all
/// chips on the table fit the chip type.
pub open spec fn table_wf(t: Table) -> bool {
    seats_ok(t) && total_chips(t) <= 0x7fff_ffff
}

/// Counting one more seat adds its contribution.
proof fn lemma_counts_take_step(ps: Seq<Seat>, k: int)
    requires
        0 <= k < ps.len(),
    ensures
        named_count(ps.take(k + 1)) == named_count(ps.take(k)) + if ps[k].model().name is Some {
            1int
        } else {
            0int
        },
        active_count(ps.take(k + 1)) == active_count(ps.take(k)) + if !ps[k].model().fold
            && ps[k].model().money != 0 {
            1int
        } else {
            0int
        },
        rich_alive_count(ps.take(k + 1)) == rich_alive_count(ps.take(k)) + if ps[k].model().money
            > 0 && !ps[k].model().dead {
            1int
        } else {
            0int
        },
{
    assert(ps.take(k + 1).drop_last() =~= ps.take(k));
    assert(ps.take(k + 1).last() == ps[k]);
}

/// Counts agree on seat lists whose models agree pointwise.
pub proof fn lemma_counts_same(a: Seq<Seat>, b: Seq<Seat>)
    requires
        a.len() == b.len(),
        forall|k: int| 0 <= k < a.len() ==> (#[trigger] b[k]).model() == a[k].model(),
    ensures
        named_count(a) == named_count(b),
        active_count(a) == active_count(b),
        rich_alive_count(a) == rich_alive_count(b),
    decreases a.len(),
{
    if a.len() > 0 {
        assert forall|k: int|
            0 <= k < a.drop_last().len() implies (#[trigger] b.drop_last()[k]).model()
            == a.drop_last()[k].model() by {
            assert(b[k].model() == a[k].model());
        }
        lemma_counts_same(a.drop_last(), b.drop_last());
        assert(b[a.len() - 1].model() == a[a.len() - 1].model());
    }
}

/// Every seat's wager is zero.
pub open spec fn all_bets_zero(ps: Seq<Seat>) -> bool {
    forall|i: int| 0 <= i < ps.len() ==> (#[trigger] ps[i]).model().bet == 0
}

/// With every stack equal to `m` and every wager zero, the sums are the
/// seat count times `m`, and zero.
proof fn lemma_sums_const(ps: Seq<Seat>, m: int)
    requires
        forall|i: int|
            0 <= i < ps.len() ==> (#[trigger] ps[i]).model().money == m && ps[i].model().bet == 0,
    ensures
        seats_money(ps) == ps.len() * m,
        seats_bets(ps) == 0,
    decreases ps.len(),
{
    if ps.len() > 0 {
        assert forall|i: int|
            0 <= i < ps.drop_last().len() implies (#[trigger] ps.drop_last()[i]).model().money == m
            && ps.drop_last()[i].model().bet == 0 by {
            assert(ps[i].model().money == m);
        }
        lemma_sums_const(ps.drop_last(), m);
        assert(ps[ps.len() - 1].model().money == m && ps[ps.len() - 1].model().bet == 0);
        assert(ps.len() * m == (ps.len() - 1) * m + m) by (nonlinear_arith);
    } else {
        assert(ps.len() * m == 0) by (nonlinear_arith)
            requires
                ps.len() == 0,
        ;
    }
}

/// Every seat's stack is unchanged between two seat lists.
proof fn lemma_sums_money_same(a: Seq<Seat>, b: Seq<Seat>)
    requires
        a.len() == b.len(),
        forall|k: int| 0 <= k < a.len() ==> (#[trigger] b[k]).model().money == a[k].model().money,
    ensures
        seats_money(a) == seats_money(b),
    decreases a.len(),
{
    if a.len() > 0 {
        assert forall|k: int|
            0 <= k < a.drop_last().len() implies (#[trigger] b.drop_last()[k]).model().money
            == a.drop_last()[k].model().money by {
            assert(b[k].model().money == a[k].model().money);
        }
        lemma_sums_money_same(a.drop_last(), b.drop_last());
        assert(b[a.len() - 1].model().money == a[a.len() - 1].model().money);
    }
}

/// With every wager zero, the wager sum is zero.
proof fn lemma_bets_sum_zero(ps: Seq<Seat>)
    requires
        all_bets_zero(ps),
    ensures
        seats_bets(ps) == 0,
    decreases ps.len(),
{
    if ps.len() > 0 {
        assert forall|k: int|
            0 <= k < ps.drop_last().len() implies (#[trigger] ps.drop_last()[k]).model().bet
            == 0 by {
            assert(ps[k].model().bet == 0);
        }
        lemma_bets_sum_zero(ps.drop_last());
        assert(ps[ps.len() - 1].model().bet == 0);
    }
}

/// Every symbol of the rank alphabet is a valid rank, each at its own
/// position, so the alphabet holds no repeated symbol.
proof fn lemma_rank_alphabet()
    ensures
        "23456789TJDKA"@.len() == 13,
        forall|i: int|
            0 <= i < "23456789TJDKA"@.len() ==> rank_char(#[trigger] "23456789TJDKA"@[i]) >= 1,
        "23456789TJDKA"@.no_duplicates(),
{
    reveal_strlit("23456789TJDKA");
    assert forall|i: int|
        0 <= i < "23456789TJDKA"@.len() implies rank_char(#[trigger] "23456789TJDKA"@[i]) == i
        + 1 by {
        let s = "23456789TJDKA"@;
        if i == 0 {
            assert(rank_char(s[0]) == 1);
        } else if i == 1 {
            assert(rank_char(s[1]) == 2);
        } else if i == 2 {
            assert(rank_char(s[2]) == 3);
        } else if i == 3 {
            assert(rank_char(s[3]) == 4);
        } else if i == 4 {
            assert(rank_char(s[4]) == 5);
        } else if i == 5 {
            assert(rank_char(s[5]) == 6);
        } else if i == 6 {
            assert(rank_char(s[6]) == 7);
        } else if i == 7 {
            assert(rank_char(s[7]) == 8);
        } else if i == 8 {
            assert(rank_char(s[8]) == 9);
        } else if i == 9 {
            assert(rank_char(s[9]) == 10);
        } else if i == 10 {
            assert(rank_char(s[10]) == 11);
        } else if i == 11 {
            assert(rank_char(s[11]) == 12);
        } else {
            assert(rank_char(s[12]) == 13);
        }
    }
    assert forall|a: int, b: int|
        0 <= a < b < "23456789TJDKA"@.len() implies "23456789TJDKA"@[a]
        != "23456789TJDKA"@[b] by {
        assert(rank_char("23456789TJDKA"@[a]) == a + 1);
        assert(rank_char("23456789TJDKA"@[b]) == b + 1);
    }
}

/// The four suit symbols are pairwise distinct.
proof fn lemma_suit_alphabet()
    ensures
        "♠♥♦♣"@.len() == 4,
        "♠♥♦♣"@.no_duplicates(),
{
    reveal_strlit("♠♥♦♣");
    let s = "♠♥♦♣"@;
    assert forall|a: int, b: int| 0 <= a < b < s.len() implies s[a] != s[b] by {
        if a == 0 && b == 1 {
            assert(s[0] != s[1]);
        } else if a == 0 && b == 2 {
            assert(s[0] != s[2]);
        } else if a == 0 && b == 3 {
            assert(s[0] != s[3]);
        } else if a == 1 && b == 2 {
            assert(s[1] != s[2]);
        } else if a == 1 && b == 3 {
            assert(s[1] != s[3]);
        } else {
            assert(s[2] != s[3]);
        }
    }
}

/// Adding one to a reduced residue steps the residue.
proof fn lemma_mod_step(x: int, n: int)
    requires
        n >= 1,
    ensures
        ((x % n) + 1) % n == (x + 1) % n,
{
    vstd::arithmetic::div_mod::lemma_add_mod_noop(x, 1, n);
    if n == 1 {
        vstd::arithmetic::div_mod::lemma_fundamental_div_mod(x % n + 1, 1);
        vstd::arithmetic::div_mod::lemma_fundamental_div_mod(x + 1, 1);
    } else {
        vstd::arithmetic::div_mod::lemma_small_mod(1nat, n as nat);
    }
}

/// The community-card reveal line the table broadcasts next.
pub open spec fn card_reveal_line(t: Table) -> Seq<char> {
    crate::text::join_sp(
        seq![
            "CARD"@,
            seq![
                t.shared@[t.shared_visible as int].fig,
                t.shared@[t.shared_visible as int].col,
            ],
        ],
    )
}

/// What one winning seat is paid from the pot: the even share, or the
/// seat's own wager times the seat count when it is all-in and the even
/// share would exceed that cap.
pub open spec fn payout_of(m: PlayerModel, per: int, seats: int) -> int {
    if m.money == 0 && per > m.bet * seats {
        m.bet * seats
    } else {
        per
    }
}

/// The variant name of a hand category, as the showdown reports it.
fn hand_type_name(t: HandType) -> (r: String) {
    match t {
        HandType::HighCard => String::from_str("HighCard"),
        HandType::Pair => String::from_str("Pair"),
        HandType::TwoPair => String::from_str("TwoPair"),
        HandType::ThreeOfAKind => String::from_str("ThreeOfAKind"),
        HandType::Straight => String::from_str("Straight"),
        HandType::Flush => String::from_str("Flush"),
        HandType::FullHouse => String::from_str("FullHouse"),
        HandType::FourOfAKind => String::from_str("FourOfAKind"),
        HandType::StraightFlush => String::from_str("StraightFlush"),
    }
}

/// Counting one more seat's wager adds it to the running sum.
proof fn lemma_bets_take_step(ps: Seq<Seat>, k: int)
    requires
        0 <= k < ps.len(),
    ensures
        seats_bets(ps.take(k + 1)) == seats_bets(ps.take(k)) + ps[k].model().bet,
{
    assert(ps.take(k + 1).drop_last() =~= ps.take(k));
    assert(ps.take(k + 1).last() == ps[k]);
}

/// With every wager nonnegative, a prefix of the wager sum is bounded by
/// the whole.
proof fn lemma_bets_prefix_bound(ps: Seq<Seat>, k: int)
    requires
        0 <= k < ps.len(),
        forall|i: int| 0 <= i < ps.len() ==> (#[trigger] ps[i]).model().bet >= 0,
    ensures
        0 <= seats_bets(ps.take(k)) <= seats_bets(ps.take(k + 1)) <= seats_bets(ps),
    decreases ps.len(),
{
    lemma_bets_take_step(ps, k);
    assert forall|i: int|
        0 <= i < ps.take(k).len() implies (#[trigger] ps.take(k)[i]).model().bet >= 0 by {
        assert(ps[i].model().bet >= 0);
    }
    assert forall|i: int|
        0 <= i < ps.drop_last().len() implies (#[trigger] ps.drop_last()[i]).model().bet >= 0 by {
        assert(ps[i].model().bet >= 0);
    }
    if k + 1 == ps.len() {
        assert(ps.take(k + 1) =~= ps);
        lemma_bets_nonneg_only(ps.take(k));
    } else {
        assert(ps.take(k) =~= ps.drop_last().take(k));
        assert(ps.take(k + 1) =~= ps.drop_last().take(k + 1));
        lemma_bets_prefix_bound(ps.drop_last(), k);
        assert(ps[ps.len() - 1].model().bet >= 0);
    }
}

/// With every wager nonnegative, the wager sum is nonnegative.
proof fn lemma_bets_nonneg_only(ps: Seq<Seat>)
    requires
        forall|i: int| 0 <= i < ps.len() ==> (#[trigger] ps[i]).model().bet >= 0,
    ensures
        seats_bets(ps) >= 0,
    decreases ps.len(),
{
    if ps.len() > 0 {
        assert forall|i: int|
            0 <= i < ps.drop_last().len() implies (#[trigger] ps.drop_last()[i]).model().bet
            >= 0 by {
            assert(ps[i].model().bet >= 0);
        }
        lemma_bets_nonneg_only(ps.drop_last());
        assert(ps[ps.len() - 1].model().bet >= 0);
    }
}

/// The named-seat count lies between zero and the seat count.
proof fn lemma_named_count_bounds(ps: Seq<Seat>)
    ensures
        0 <= named_count(ps) <= ps.len(),
    decreases ps.len(),
{
    if ps.len() > 0 {
        lemma_named_count_bounds(ps.drop_last());
    }
}

/// The progress of one betting street: the seat position whose turn it is,
/// how many turns have been taken (counting skipped seats, saturated at
/// the seat count), and whether the seat to act has already been prompted.
pub struct BetRound {
    pub pos: isize,
    pub played: isize,
    pub prompted: bool,
}

/// One step of a betting street.
#[derive(Debug, Clone, Copy, PartialEq, Eq, Structural)]
pub enum BetStep {
    /// A participant acted (or its line was ignored); the turn advanced.
    Acted,
    /// The live network participant at this seat has not spoken yet; feed
    /// its next line in and step again.
    NeedInput(usize),
    /// The participant at this seat announced a wager below the betting
    /// ceiling — an unrecoverable protocol violation, fatal to the match
    /// as the embedding sees fit.
    Violation(usize),
    /// No seat is left to prompt.
    Finished,
}

/// A seat that cannot act on a street: folded or all-in.
pub open spec fn seat_inactive(s: Seat) -> bool {
    s.model().fold || s.model().money == 0
}

/// `idx` is the first seat at or cyclically after `base` that can still
/// act.
pub open spec fn first_active_at(ps: Seq<Seat>, base: int, idx: int) -> bool {
    exists|off: int|
        #![trigger (base + off) % (ps.len() as int)]
        0 <= off < ps.len() && idx == (base + off) % (ps.len() as int) && !seat_inactive(
            ps[idx],
        ) && (forall|d: int|
            0 <= d < off ==> seat_inactive(#[trigger] ps[(base + d) % (ps.len() as int)]))
}

/// The first active seat at or after a position is unique.
proof fn lemma_first_active_unique(ps: Seq<Seat>, base: int, i1: int, i2: int)
    requires
        first_active_at(ps, base, i1),
        first_active_at(ps, base, i2),
    ensures
        i1 == i2,
{
    let n0 = ps.len() as int;
    let off1 = choose|off: int|
        #![trigger (base + off) % n0]
        0 <= off < ps.len() && i1 == (base + off) % n0 && !seat_inactive(ps[i1]) && (forall|d: int|
            0 <= d < off ==> seat_inactive(#[trigger] ps[(base + d) % n0]));
    let off2 = choose|off: int|
        #![trigger (base + off) % n0]
        0 <= off < ps.len() && i2 == (base + off) % n0 && !seat_inactive(ps[i2]) && (forall|d: int|
            0 <= d < off ==> seat_inactive(#[trigger] ps[(base + d) % n0]));
    if off1 < off2 {
        assert(seat_inactive(ps[(base + off1) % n0]));
    } else if off2 < off1 {
        assert(seat_inactive(ps[(base + off2) % n0]));
    }
}

/// What one street step does, as a function of the acting seat's next
/// line: a wager at or above the ceiling is applied by the clamp and may
/// raise the ceiling, a fold marks the seat folded, anything else changes
/// nothing; a below-ceiling wager is surfaced as a violation and a silent
/// live network seat as needed input.
pub open spec fn bet_step_transition(
    t0: Table,
    t1: Table,
    pos0: int,
    prompted0: bool,
    r: BetStep,
) -> bool {
    let ps = t0.server.players@;
    let n0 = ps.len() as int;
    let base = pos0 % n0;
    &&& (r is Finished ==> forall|k: int|
        0 <= k < n0 ==> crate::player::seat_told(
            ps[k],
            #[trigger] t1.server.players@[k],
            Seq::empty(),
        ))
    &&& (r matches BetStep::NeedInput(s) ==> forall|k: int|
        0 <= k < n0 ==> crate::player::seat_told(
            ps[k],
            #[trigger] t1.server.players@[k],
            prompt_lines(ps, s as int, prompted0),
        ))
    &&& (r matches BetStep::Violation(s) ==> forall|k: int|
        0 <= k < n0 ==> crate::player::seat_told(
            ps[k],
            #[trigger] t1.server.players@[k],
            prompt_lines(ps, s as int, prompted0),
        ))
    &&& (r matches BetStep::NeedInput(s) ==> first_active_at(ps, base, s as int) && (
    ps[s as int] matches Seat::Human(h) && h.inbox@.len() == 0 && !h.dead) && (forall|k: int|
        0 <= k < n0 ==> (#[trigger] t1.server.players@[k]).model() == ps[k].model())
        && t1.max_bet == t0.max_bet)
    &&& (r matches BetStep::Violation(s) ==> first_active_at(ps, base, s as int) && ({
        let ts = crate::text::split_sp(ps[s as int].action_line());
        ts[0] == "BET"@ && ts.len() >= 2 && crate::text::valid_i32_str(ts[1])
            && crate::text::i32_str_val(ts[1]) < t0.max_bet as int
    }) && t1.max_bet == t0.max_bet && (forall|k: int|
        0 <= k < n0 ==> (#[trigger] t1.server.players@[k]).model() == ps[k].model()))
    &&& (r is Finished ==> forall|idx: int| !first_active_at(ps, base, idx))
    &&& (r matches BetStep::NeedInput(s) ==> forall|k: int|
        0 <= k < n0 ==> (#[trigger] t1.server.players@[k]).queued() == ps[k].queued())
    &&& (r matches BetStep::Violation(s) ==> (forall|k: int|
        0 <= k < n0 && k != s as int ==> (#[trigger] t1.server.players@[k]).queued()
            == ps[k].queued()) && t1.server.players@[s as int].queued() == (if ps[s as int].queued().len()
        > 0 {
        ps[s as int].queued().drop_first()
    } else {
        ps[s as int].queued()
    }))
    &&& (r is Acted ==> exists|idx: int| #[trigger] first_active_at(ps, base, idx))
    &&& (forall|idx: int|
        r is Acted && #[trigger] first_active_at(ps, base, idx) ==> ({
            let ts = crate::text::split_sp(ps[idx].action_line());
            &&& ((ts[0] == "BET"@ && ts.len() >= 2 && crate::text::valid_i32_str(ts[1])) ==> ({
                let m = crate::text::i32_str_val(ts[1]);
                &&& m >= t0.max_bet as int
                &&& t1.server.players@[idx].model() == wager_clamp(ps[idx].model(), m)
                &&& (forall|k: int|
                    0 <= k < n0 && k != idx ==> (#[trigger] t1.server.players@[k]).model()
                        == ps[k].model())
                &&& t1.max_bet as int == (if m > t0.max_bet as int {
                    m
                } else {
                    t0.max_bet as int
                })
            }))
            &&& ((!(ts[0] == "BET"@ && ts.len() >= 2 && crate::text::valid_i32_str(ts[1]))
                && ts[0] == "FOLD"@) ==> ({
                let m = t1.server.players@[idx].model();
                let o = ps[idx].model();
                &&& m.fold == true
                &&& m.money == o.money
                &&& m.bet == o.bet
                &&& m.name == o.name
                &&& m.cards == o.cards
                &&& m.dead == o.dead
                &&& (forall|k: int|
                    0 <= k < n0 && k != idx ==> (#[trigger] t1.server.players@[k]).model()
                        == ps[k].model())
                &&& t1.max_bet == t0.max_bet
            }))
            &&& ((!(ts[0] == "BET"@ && ts.len() >= 2 && crate::text::valid_i32_str(ts[1])) && !(
            ts[0] == "FOLD"@)) ==> ((forall|k: int|
                0 <= k < n0 ==> (#[trigger] t1.server.players@[k]).model() == ps[k].model())
                && t1.max_bet == t0.max_bet))
            &&& (forall|k: int|
                0 <= k < n0 && k != idx ==> (#[trigger] t1.server.players@[k]).queued()
                    == ps[k].queued())
            &&& t1.server.players@[idx].queued() == (if ps[idx].queued().len() > 0 {
                ps[idx].queued().drop_first()
            } else {
                ps[idx].queued()
            })
            &&& (forall|k: int|
                0 <= k < n0 ==> crate::player::seat_told(
                    ps[k],
                    #[trigger] t1.server.players@[k],
                    prompt_lines(ps, idx, prompted0) + (if ts[0] == "BET"@ && ts.len() >= 2
                        && crate::text::valid_i32_str(ts[1]) {
                        seq![
                            crate::text::join_sp(
                                seq![
                                    "BET"@,
                                    crate::text::int_dec(crate::text::i32_str_val(ts[1])),
                                    ps[idx].model().name.unwrap(),
                                ],
                            ),
                        ]
                    } else if ts[0] == "FOLD"@ {
                        seq![
                            crate::text::join_sp(seq!["FOLD"@, ps[idx].model().name.unwrap()]),
                        ]
                    } else {
                        Seq::empty()
                    }),
                ))
        }))
}

/// The payout announcement for one winner: its name, the amount, and the
/// winning category's name (or the last-standing marker).
pub open spec fn won_line(m: PlayerModel, per: int, seats: int, tok: Seq<char>) -> Seq<char> {
    crate::text::join_sp(
        seq!["WON"@, m.name.unwrap(), crate::text::int_dec(payout_of(m, per, seats)), tok],
    )
}

/// The face-up hole-card line for one seat.
pub open spec fn endcards_line(m: PlayerModel) -> Seq<char> {
    match m.cards {
        Some(c) => crate::text::join_sp(
            seq![
                "ENDCARDS"@,
                m.name.unwrap(),
                seq![c[0].fig, c[0].col],
                seq![c[1].fig, c[1].col],
            ],
        ),
        None => Seq::empty(),
    }
}

/// The prompt line announcing whose turn it is.
pub open spec fn move_line_of(ps: Seq<Seat>, idx: int) -> Seq<char> {
    crate::text::join_sp(seq!["MOVE"@, ps[idx].model().name.unwrap()])
}

/// The lines a street step owes to the prompt: the `MOVE` announcement,
/// unless the seat was already prompted on an earlier step.
pub open spec fn prompt_lines(ps: Seq<Seat>, idx: int, prompted0: bool) -> Seq<Seq<char>> {
    if prompted0 {
        Seq::empty()
    } else {
        seq![move_line_of(ps, idx)]
    }
}

/// Everyone has taken a turn and every participant who can still act has
/// matched the betting ceiling.
pub open spec fn street_settled(t: Table, played: int) -> bool {
    &&& played >= t.players as int
    &&& forall|i: int|
        0 <= i < t.server.players@.len() ==> {
            let m = (#[trigger] t.server.players@[i]).model();
            (!m.fold && m.money != 0) ==> m.bet == t.max_bet as int
        }
}

/// The street is over: at most one participant can still act, or the
/// betting is settled.
pub open spec fn street_over(t: Table, played: int) -> bool {
    active_count(t.server.players@) <= 1 || street_settled(t, played)
}

/// Joins a verb and argument strings into one broadcast line.
fn compose_line(verb: &str, args: Vec<String>) -> (r: String)
    ensures
        r@ == crate::text::join_sp(
            seq![verb@] + crate::text::token_views(args@),
        ),
{
    let mut tokens: Vec<String> = Vec::new();
    tokens.push(verb.to_owned());
    let mut k: usize = 0;
    while k < args.len()
        invariant
            k <= args@.len(),
            tokens@.len() == k + 1,
            tokens@[0]@ == verb@,
            forall|t: int| 0 <= t < k ==> (#[trigger] tokens@[t + 1]) == args@[t],
        decreases args@.len() - k,
    {
        tokens.push(args[k].clone());
        k += 1;
    }
    let r = crate::text::join_tokens(&tokens);
    proof {
        assert forall|i: int| 1 <= i < tokens@.len() implies (#[trigger] tokens@[i]) == args@[i
            - 1] by {
            assert(tokens@[(i - 1) + 1] == args@[i - 1]);
        }
        assert(crate::text::token_views(tokens@) =~~= seq![verb@] + crate::text::token_views(
            args@,
        ));
    }
    r
}

impl Table {
    /// A table over the given registry, with no match running yet.
    pub fn new(server: ServerData) -> (t: Table)
        ensures
            t.server == server,
            t.bank == 0,
            t.shared@.len() == 0,
            t.shared_visible == 0,
            t.max_bet == 0,
            t.dealer == 0,
            t.players == 0,
    {
        Table {
            server,
            bank: 0,
            shared: Vec::new(),
            shared_visible: 0,
            max_bet: 0,
            dealer: 0,
            players: 0,
        }
    }

    /// Admits a new network participant to the lobby.
    pub fn add_player(&mut self, conn: usize) -> (idx: usize)
        ensures
            final(self).server.players@.len() == old(self).server.players@.len() + 1,
            idx == old(self).server.players@.len(),
            forall|k: int|
                0 <= k < old(self).server.players@.len() ==> final(self).server.players@[k] == old(
                    self,
                ).server.players@[k],
            (final(self).server.players@.last() matches Seat::Human(h) && h.model() == (
            PlayerModel { name: None, cards: None, money: 0, bet: 0, fold: false, dead: false })
                && h.conn == conn && h.inbox@.len() == 0),
            final(self).server.started == old(self).server.started,
            final(self).bank == old(self).bank,
            final(self).shared == old(self).shared,
            final(self).shared_visible == old(self).shared_visible,
            final(self).max_bet == old(self).max_bet,
            final(self).dealer == old(self).dealer,
            final(self).players == old(self).players,
    {
        let idx = self.server.players.len();
        self.server.players.push(Seat::Human(crate::human::HumanSeat::new(conn)));
        idx
    }

    /// Resolves a signed seat position to a valid seat index by modulo
    /// wraparound.
    pub fn get_pos(&self, pos: isize) -> (r: isize)
        requires
            1 <= self.players,
            self.players as int <= 0x7fff_ffff,
        ensures
            r as int == pos as int % self.players as int,
            0 <= r < self.players,
    {
        let n = self.players;
        let ghost n_int = self.players as int;
        let mut p = pos;
        while p >= n
            invariant
                n == self.players,
                1 <= n_int == n as int,
                p as int % n_int == pos as int % n_int,
            decreases p,
        {
            proof {
                vstd::arithmetic::div_mod::lemma_mod_sub_multiples_vanish(p as int, n_int);
            }
            p = p - n;
        }
        while p < 0
            invariant
                n == self.players,
                1 <= n_int == n as int,
                p < n,
                p as int % n_int == pos as int % n_int,
            decreases n - p,
        {
            proof {
                vstd::arithmetic::div_mod::lemma_mod_add_multiples_vanish(p as int, n_int);
            }
            p = p + n;
        }
        proof {
            vstd::arithmetic::div_mod::lemma_small_mod(p as nat, n_int as nat);
        }
        p
    }

    /// Reveals the next face-down community card to everyone.
    pub fn show_card(&mut self)
        requires
            table_wf(*old(self)),
            old(self).shared_visible < old(self).shared@.len(),
        ensures
            table_wf(*final(self)),
            total_chips(*final(self)) == total_chips(*old(self)),
            final(self).shared == old(self).shared,
            final(self).shared_visible == old(self).shared_visible + 1,
            final(self).bank == old(self).bank,
            final(self).max_bet == old(self).max_bet,
            final(self).dealer == old(self).dealer,
            final(self).players == old(self).players,
            final(self).server.players@.len() == old(self).server.players@.len(),
            forall|k: int|
                0 <= k < old(self).server.players@.len() ==> (
                #[trigger] final(self).server.players@[k]).model()
                    == old(self).server.players@[k].model(),
            forall|k: int|
                0 <= k < old(self).server.players@.len() ==> crate::player::seat_sent(
                    old(self).server.players@[k],
                    #[trigger] final(self).server.players@[k],
                    card_reveal_line(*old(self)),
                ),
    {
        let c = self.shared[self.shared_visible];
        let mut args: Vec<String> = Vec::new();
        args.push(c.code());
        let line = compose_line("CARD", args);
        proof {
            assert(seq!["CARD"@] + crate::text::token_views(args@) =~~= seq![
                "CARD"@,
                seq![c.fig, c.col],
            ]);
            assert(line@ == card_reveal_line(*self));
        }
        let ghost before = self.server.players@;
        self.broadcast(line);
        proof {
            assert(self.server.players@.len() == before.len());
        }
        let lim = self.shared.len();
        proof {
            assert(self.shared_visible < lim);
        }
        self.shared_visible = self.shared_visible + 1;
        proof {
            lemma_sums_same(before, self.server.players@);
            lemma_counts_same(before, self.server.players@);
        }
    }

    /// One pass of lobby admission over the queued input: a `READY` line
    /// binds a not-yet-named participant's name (a second `READY`, like
    /// any unexpected or malformed line, is ignored), participants whose
    /// connection died before the match are removed, and the pass reports
    /// whether the requested number of participants is now bound. The
    /// embedding repeats this pass, feeding received lines in between,
    /// until it reports done.
    pub fn wait_for_players(&mut self, players: i32) -> (done: bool)
        requires
            all_human(old(self).server.players@),
            all_seats_wf(old(self).server.players@),
        ensures
            all_human(final(self).server.players@),
            all_seats_wf(final(self).server.players@),
            none_dead(final(self).server.players@),
            done == (named_count(final(self).server.players@) >= players as int),
            all_blank(old(self).server.players@) ==> all_blank(final(self).server.players@),
            ({
                let ps0 = old(self).server.players@;
                let ps1 = final(self).server.players@;
                exists|kept: Seq<int>|
                    #![trigger kept.len()]
                    {
                        &&& kept.len() == ps1.len()
                        &&& (forall|j: int| 0 <= j < kept.len() ==> 0 <= #[trigger] kept[j] < ps0.len())
                        &&& (forall|j1: int, j2: int|
                            0 <= j1 < j2 < kept.len() ==> kept[j1] < kept[j2])
                        &&& (forall|i: int|
                            0 <= i < ps0.len() && !(#[trigger] ps0[i]).model().dead ==> kept.contains(
                                i,
                            ))
                        &&& (forall|j: int|
                            0 <= j < kept.len() ==> ((#[trigger] ps0[kept[j]]) matches Seat::Human(
                                h,
                            ) && ps1[j] matches Seat::Human(h2) && h2.model() == (PlayerModel {
                                name: lobby_name(h.model().name, line_views(h.inbox@)),
                                ..h.model()
                            }) && h2.inbox@.len() == 0 && h2.conn == h.conn))
                    }
            }),
            final(self).server.started == old(self).server.started,
            final(self).bank == old(self).bank,
            final(self).shared == old(self).shared,
            final(self).shared_visible == old(self).shared_visible,
            final(self).max_bet == old(self).max_bet,
            final(self).dealer == old(self).dealer,
            final(self).players == old(self).players,
    {
        let ghost orig = self.server.players@;
        let n = self.server.players.len();
        // bind names from the queued lines
        let mut i: usize = 0;
        while i < n
            invariant
                n == self.server.players@.len(),
                orig.len() == n,
                i <= n,
                self.server.started == old(self).server.started,
                self.bank == old(self).bank,
                self.shared == old(self).shared,
                self.shared_visible == old(self).shared_visible,
                self.max_bet == old(self).max_bet,
                self.dealer == old(self).dealer,
                self.players == old(self).players,
                forall|k: int| 0 <= k < n ==> (#[trigger] orig[k]) is Human && orig[k].wf(),
                forall|k: int|
                    0 <= k < n ==> (#[trigger] self.server.players@[k]) is Human
                        && self.server.players@[k].wf(),
                forall|k: int|
                    0 <= k < n ==> {
                        let m = (#[trigger] self.server.players@[k]).model();
                        let o = orig[k].model();
                        m.money == o.money && m.bet == o.bet && m.fold == o.fold && m.cards
                            == o.cards && m.dead == o.dead
                    },
                forall|k: int|
                    0 <= k < i ==> lobby_drained(orig[k], #[trigger] self.server.players@[k]),
                forall|k: int| i <= k < n ==> (#[trigger] self.server.players@[k]) == orig[k],
            decreases n - i,
        {
            let ghost pre = self.server.players@;
            let p = self.server.seat_mut(i);
            match p {
                Seat::Human(h) => {
                    proof {
                        reveal_strlit("READY");
                        reveal_strlit("BET");
                        reveal_strlit("FOLD");
                    }
                    let ghost h0 = *h;
                    while h.has_line()
                        invariant
                            h.cards == h0.cards,
                            h.money == h0.money,
                            h.bet == h0.bet,
                            h.fold == h0.fold,
                            h.dead == h0.dead,
                            h.conn == h0.conn,
                            lobby_name(h.model().name, line_views(h.inbox@)) == lobby_name(
                                h0.model().name,
                                line_views(h0.inbox@),
                            ),
                        decreases h.inbox@.len(),
                    {
                        proof {
                            reveal_strlit("READY");
                            reveal_strlit("BET");
                            reveal_strlit("FOLD");
                        }
                        let ghost inb = h.inbox@;
                        let ghost nm0 = h.model().name;
                        let line = h.take_line();
                        proof {
                            assert(line_views(h.inbox@) =~~= line_views(inb).drop_first());
                            assert(line@ == line_views(inb)[0]);
                        }
                        let m = Message::from_str(&line);
                        match m {
                            Message::Ready { name } => {
                                let ghost nv = name@;
                                if h.name.is_none() {
                                    h.name = Some(name);
                                }
                                proof {
                                    reveal_strlit("READY");
                                    reveal_strlit("BET");
                                    reveal_strlit("FOLD");
                                    let vs = line_views(inb);
                                    let ts = crate::text::split_sp(vs[0]);
                                    if nm0 is None {
                                        assert(ts[0] == "READY"@ && ts.len() >= 2 && nv == ts[1]);
                                        assert(lobby_name(nm0, vs) == Some(ts[1]));
                                        assert(h.model().name == Some(nv));
                                        assert(lobby_name(h.model().name, line_views(h.inbox@))
                                            == Some(nv));
                                    }
                                }
                            },
                            Message::Unknown => {
                                proof {
                                    reveal_strlit("READY");
                                    reveal_strlit("BET");
                                    reveal_strlit("FOLD");
                                    let vs = line_views(inb);
                                    let ts = crate::text::split_sp(vs[0]);
                                    if nm0 is None {
                                        assert(!(ts[0] == "READY"@ && ts.len() >= 2));
                                        assert(lobby_name(nm0, vs) == lobby_name(
                                            nm0,
                                            vs.drop_first(),
                                        ));
                                    }
                                }
                            },
                            Message::Bet { .. } => {
                                proof {
                                    reveal_strlit("READY");
                                    reveal_strlit("BET");
                                    reveal_strlit("FOLD");
                                    let vs = line_views(inb);
                                    let ts = crate::text::split_sp(vs[0]);
                                    if nm0 is None {
                                        assert(ts[0] == "BET"@);
                                        assert("BET"@.len() == 3 && "READY"@.len() == 5);
                                        assert(!(ts[0] == "READY"@ && ts.len() >= 2));
                                        assert(lobby_name(nm0, vs) == lobby_name(
                                            nm0,
                                            vs.drop_first(),
                                        ));
                                    }
                                }
                            },
                            Message::Fold => {
                                proof {
                                    reveal_strlit("READY");
                                    reveal_strlit("BET");
                                    reveal_strlit("FOLD");
                                    let vs = line_views(inb);
                                    let ts = crate::text::split_sp(vs[0]);
                                    if nm0 is None {
                                        assert(ts[0] == "FOLD"@);
                                        assert("FOLD"@.len() == 4 && "READY"@.len() == 5);
                                        assert(!(ts[0] == "READY"@ && ts.len() >= 2));
                                        assert(lobby_name(nm0, vs) == lobby_name(
                                            nm0,
                                            vs.drop_first(),
                                        ));
                                    }
                                }
                            },
                        }
                    }
                    proof {
                        assert(line_views(h.inbox@).len() == 0);
                        assert(lobby_drained(pre[i as int], Seat::Human(*h))) by {
                            assert(pre[i as int] == orig[i as int]);
                            assert(orig[i as int] matches Seat::Human(hh) && hh == h0);
                        }
                    }
                },
                Seat::Bot(_) => {},
            }
            proof {
                assert forall|k: int|
                    0 <= k < n implies (#[trigger] self.server.players@[k]) is Human
                    && self.server.players@[k].wf() by {
                    if k != i {
                        assert(self.server.players@[k] == pre[k]);
                    }
                }
                assert forall|k: int|
                    0 <= k < n implies {
                    let m = (#[trigger] self.server.players@[k]).model();
                    let o = orig[k].model();
                    m.money == o.money && m.bet == o.bet && m.fold == o.fold && m.cards == o.cards
                        && m.dead == o.dead
                } by {
                    if k != i {
                        assert(self.server.players@[k] == pre[k]);
                    }
                }
                assert forall|k: int|
                    0 <= k < i + 1 implies lobby_drained(
                    orig[k],
                    #[trigger] self.server.players@[k],
                ) by {
                    if k != i {
                        assert(self.server.players@[k] == pre[k]);
                    }
                }
                assert forall|k: int|
                    i + 1 <= k < n implies (#[trigger] self.server.players@[k]) == orig[k] by {
                    assert(self.server.players@[k] == pre[k]);
                }
            }
            i += 1;
        }
        // drop participants that died before the match started
        let ghost mid = self.server.players@;
        let mut taken: Vec<Seat> = Vec::new();
        core::mem::swap(&mut taken, &mut self.server.players);
        let mut kept: Vec<Seat> = Vec::new();
        let ghost kept_idx: Seq<int> = Seq::empty();
        let ghost done: int = 0;
        while taken.len() > 0
            invariant
                0 <= done <= mid.len(),
                mid.len() == n,
                taken@ =~= mid.skip(done),
                forall|k: int| 0 <= k < n ==> (#[trigger] mid[k]) is Human && mid[k].wf(),
                kept@.len() == kept_idx.len(),
                forall|j: int| 0 <= j < kept_idx.len() ==> 0 <= #[trigger] kept_idx[j] < done,
                forall|j1: int, j2: int|
                    0 <= j1 < j2 < kept_idx.len() ==> kept_idx[j1] < kept_idx[j2],
                forall|j: int| 0 <= j < kept@.len() ==> (#[trigger] kept@[j]) == mid[kept_idx[j]],
                forall|q: int|
                    0 <= q < done && !(#[trigger] mid[q]).model().dead ==> kept_idx.contains(q),
                forall|j: int|
                    0 <= j < kept@.len() ==> !(#[trigger] kept@[j]).model().dead,
            decreases taken@.len(),
        {
            let ghost tpre = taken@;
            let s = taken.remove(0);
            proof {
                assert(s == mid[done]);
                assert(taken@ =~= mid.skip(done + 1));
            }
            let ghost old_idx = kept_idx;
            if !s.is_dead() {
                kept.push(s);
                proof {
                    kept_idx = kept_idx.push(done);
                }
            }
            proof {
                assert forall|q: int|
                    0 <= q < done + 1 && !(#[trigger] mid[q]).model().dead implies kept_idx.contains(
                    q,
                ) by {
                    if q < done {
                        let j = choose|j: int| 0 <= j < old_idx.len() && old_idx[j] == q;
                        assert(kept_idx[j] == q);
                    } else {
                        assert(kept_idx[kept_idx.len() - 1] == q);
                    }
                }
                done = done + 1;
            }
        }
        self.server.players = kept;
        proof {
            assert(mid.skip(n as int) =~= Seq::<Seat>::empty());
            // the surviving seats are exactly the live ones, state kept
            assert(kept_idx.len() == self.server.players@.len());
            assert forall|j: int|
                0 <= j < kept_idx.len() implies ((#[trigger] orig[kept_idx[j]]) matches Seat::Human(
                h,
            ) && self.server.players@[j] matches Seat::Human(h2) && h2.model() == (PlayerModel {
                name: lobby_name(h.model().name, line_views(h.inbox@)),
                ..h.model()
            }) && h2.inbox@.len() == 0 && h2.conn == h.conn) by {
                assert(self.server.players@[j] == mid[kept_idx[j]]);
                assert(lobby_drained(orig[kept_idx[j]], mid[kept_idx[j]]));
            }
            assert forall|q: int|
                0 <= q < orig.len() && !(#[trigger] orig[q]).model().dead implies kept_idx.contains(
                q,
            ) by {
                assert(mid[q].model().dead == orig[q].model().dead);
            }
        }
        // count the bound names
        let ghost ps = self.server.players@;
        let m = self.server.players.len();
        let mut count: usize = 0;
        let mut k: usize = 0;
        while k < m
            invariant
                m == ps.len(),
                ps == self.server.players@,
                k <= m,
                count <= k,
                count as int == named_count(ps.take(k as int)),
            decreases m - k,
        {
            proof {
                lemma_counts_take_step(ps, k as int);
            }
            match self.server.players[k].get_name() {
                Some(_) => {
                    count = count + 1;
                },
                None => {},
            }
            k += 1;
        }
        proof {
            assert(ps.take(m as int) =~= ps);
        }
        if players <= 0 {
            true
        } else {
            count >= (players as usize)
        }
    }

    /// Starts the match: drops still-unnamed participants, seats the
    /// requested number of heuristic participants, broadcasts the roster,
    /// hands every participant the starting stack, and fixes the dealer
    /// seat (an explicit override, or uniformly random over the seats).
    pub fn start(&mut self, start_money: i32, bots: i32, dealer: Option<isize>)
        requires
            all_seats_wf(old(self).server.players@),
            all_bets_zero(old(self).server.players@),
            bots >= 0,
            start_money >= 0,
            old(self).bank == 0,
            old(self).max_bet >= 0,
            (old(self).server.players@.len() + bots as int) * start_money as int <= 0x7fff_ffff,
            old(self).server.players@.len() + bots as int <= 0x7fff,
            named_count(old(self).server.players@) + bots as int >= 1,
        ensures
            table_wf(*final(self)),
            final(self).players as int == named_count(old(self).server.players@) + bots as int,
            final(self).players as int == final(self).server.players@.len(),
            forall|i: int|
                0 <= i < final(self).server.players@.len() ==> {
                    let m = (#[trigger] final(self).server.players@[i]).model();
                    m.money == start_money as int && m.bet == 0 && m.name is Some
                },
            total_chips(*final(self)) == final(self).players as int * start_money as int,
            ({
                let ps0 = old(self).server.players@;
                let ps1 = final(self).server.players@;
                exists|kept: Seq<int>|
                    #![trigger kept.len()]
                    {
                        &&& kept.len() == named_count(ps0)
                        &&& (forall|j: int|
                            0 <= j < kept.len() ==> 0 <= #[trigger] kept[j] < ps0.len())
                        &&& (forall|j1: int, j2: int|
                            0 <= j1 < j2 < kept.len() ==> kept[j1] < kept[j2])
                        &&& (forall|i: int|
                            0 <= i < ps0.len() && (#[trigger] ps0[i]).model().name is Some
                                ==> kept.contains(i))
                        &&& (forall|j: int|
                            0 <= j < kept.len() ==> ({
                                let m = (#[trigger] ps1[j]).model();
                                let o = ps0[kept[j]].model();
                                m.name == o.name && m.cards == o.cards && m.dead == o.dead
                                    && m.fold == o.fold
                            }))
                        &&& (forall|j: int|
                            kept.len() <= j < ps1.len() ==> ({
                                let m = (#[trigger] ps1[j]).model();
                                m.name == Some("BOT"@ + crate::text::int_dec(j - kept.len()))
                                    && m.cards is None && !m.dead && !m.fold
                            }))
                        &&& (forall|j: int|
                            0 <= j < kept.len() ==> crate::player::seat_delivered(
                                ps0[kept[j]],
                                #[trigger] ps1[j],
                                seq![
                                    crate::text::join_sp(crate::message::start_tokens(ps1)),
                                ],
                            ))
                        &&& (forall|j: int|
                            kept.len() <= j < ps1.len() ==> (#[trigger] ps1[j]).watch()
                                == crate::player::watch_fold(
                                (Seq::empty(), 0),
                                seq![
                                    crate::text::join_sp(crate::message::start_tokens(ps1)),
                                ],
                            ))
                    }
            }),
            (dealer matches Some(d) ==> final(self).dealer == d),
            (dealer is None ==> 0 <= final(self).dealer < final(self).players),
            final(self).bank == 0,
            final(self).shared == old(self).shared,
            final(self).shared_visible == old(self).shared_visible,
            final(self).max_bet == old(self).max_bet,
    {
        let ghost orig = self.server.players@;
        proof {
            lemma_named_count_bounds(orig);
        }
        // keep only the participants that bound a name
        let mut taken: Vec<Seat> = Vec::new();
        core::mem::swap(&mut taken, &mut self.server.players);
        let mut kept: Vec<Seat> = Vec::new();
        let ghost kept_idx: Seq<int> = Seq::empty();
        let ghost done: int = 0;
        while taken.len() > 0
            invariant
                0 <= done <= orig.len(),
                taken@ =~= orig.skip(done),
                forall|k: int| 0 <= k < orig.len() ==> (#[trigger] orig[k]).wf(),
                forall|k: int| 0 <= k < orig.len() ==> (#[trigger] orig[k]).model().bet == 0,
                kept@.len() == named_count(orig.take(done)),
                kept@.len() == kept_idx.len(),
                forall|j: int| 0 <= j < kept_idx.len() ==> 0 <= #[trigger] kept_idx[j] < done,
                forall|j1: int, j2: int|
                    0 <= j1 < j2 < kept_idx.len() ==> kept_idx[j1] < kept_idx[j2],
                forall|j: int| 0 <= j < kept@.len() ==> (#[trigger] kept@[j]) == orig[kept_idx[j]],
                forall|q: int|
                    0 <= q < done && (#[trigger] orig[q]).model().name is Some ==> kept_idx.contains(
                        q,
                    ),
                forall|k: int|
                    0 <= k < kept@.len() ==> (#[trigger] kept@[k]).wf() && kept@[k].model().bet
                        == 0 && kept@[k].model().name is Some,
            decreases taken@.len(),
        {
            let ghost tpre = taken@;
            let s = taken.remove(0);
            proof {
                assert(s == orig[done]);
                assert(taken@ =~= orig.skip(done + 1));
                lemma_counts_take_step(orig, done);
            }
            let ghost old_idx = kept_idx;
            let keep = match s.get_name() {
                Some(_) => true,
                None => false,
            };
            if keep {
                kept.push(s);
                proof {
                    kept_idx = kept_idx.push(done);
                }
            }
            proof {
                assert forall|q: int|
                    0 <= q < done + 1 && (#[trigger] orig[q]).model().name is Some implies kept_idx.contains(
                    q,
                ) by {
                    if q < done {
                        let j = choose|j: int| 0 <= j < old_idx.len() && old_idx[j] == q;
                        assert(kept_idx[j] == q);
                    } else {
                        assert(kept_idx[kept_idx.len() - 1] == q);
                    }
                }
                done = done + 1;
            }
        }
        proof {
            assert(orig.take(orig.len() as int) =~= orig);
        }
        self.server.players = kept;
        let ghost named_len = self.server.players@.len() as int;
        // seat the heuristic participants
        let ghost named = named_count(orig);
        let mut i: i32 = 0;
        while i < bots
            invariant
                self.bank == old(self).bank,
                self.max_bet == old(self).max_bet,
                self.shared == old(self).shared,
                self.shared_visible == old(self).shared_visible,
                self.dealer == old(self).dealer,
                self.players == old(self).players,
                0 <= i <= bots,
                0 <= named,
                named_len == named,
                self.server.players@.len() == named + i,
                named + bots <= 0x7fff,
                forall|j: int|
                    0 <= j < named ==> (#[trigger] self.server.players@[j]) == orig[kept_idx[j]],
                forall|j: int|
                    named <= j < self.server.players@.len() ==> ({
                        let m = (#[trigger] self.server.players@[j]).model();
                        m.name == Some("BOT"@ + crate::text::int_dec(j - named)) && m.cards is None
                            && !m.dead && !m.fold
                    }),
                forall|j: int|
                    named <= j < self.server.players@.len() ==> (
                    #[trigger] self.server.players@[j]).watch() == (Seq::<Card>::empty(), 0int)
                        && (self.server.players@[j]) is Bot,
                forall|k: int|
                    0 <= k < self.server.players@.len() ==> (#[trigger] self.server.players@[k]).wf()
                        && self.server.players@[k].model().bet == 0
                        && self.server.players@[k].model().name is Some,
            decreases bots - i,
        {
            let ghost pre = self.server.players@;
            let newseat = Seat::Bot(crate::bot::Bot::new(i));
            let ghost ns = newseat;
            self.server.players.push(newseat);
            proof {
                assert(self.server.players@ =~= pre.push(ns));
                assert forall|j: int|
                    named <= j < self.server.players@.len() implies ({
                    let m = (#[trigger] self.server.players@[j]).model();
                    m.name == Some("BOT"@ + crate::text::int_dec(j - named)) && m.cards is None
                        && !m.dead && !m.fold
                }) by {
                    if j < pre.len() {
                        assert(self.server.players@[j] == pre.push(ns)[j]);
                        assert(pre.push(ns)[j] == pre[j]);
                    } else {
                        assert(j == named + i);
                        assert(self.server.players@[j] == ns);
                    }
                }
                assert forall|j: int|
                    named <= j < self.server.players@.len() implies (
                #[trigger] self.server.players@[j]).watch() == (Seq::<Card>::empty(), 0int) && (
                self.server.players@[j]) is Bot by {
                    if j < pre.len() {
                        assert(self.server.players@[j] == pre.push(ns)[j]);
                        assert(pre.push(ns)[j] == pre[j]);
                    } else {
                        assert(self.server.players@[j] == ns);
                        assert(ns.watch().0 =~= Seq::<Card>::empty());
                    }
                }
                assert forall|j: int|
                    0 <= j < named implies (#[trigger] self.server.players@[j])
                    == orig[kept_idx[j]] by {
                    assert(self.server.players@[j] == pre.push(ns)[j]);
                    assert(pre.push(ns)[j] == pre[j]);
                }
            }
            i += 1;
        }
        // roster broadcast
        let msg = Message::start(&self.server.players);
        let ghost before = self.server.players@;
        self.server.send_all(msg);
        proof {
            assert forall|k: int|
                0 <= k < self.server.players@.len() implies (
            #[trigger] self.server.players@[k]).wf() && self.server.players@[k].model().bet == 0
                && self.server.players@[k].model().name is Some
                && self.server.players@[k].model().name == before[k].model().name
                && self.server.players@[k].model().cards == before[k].model().cards
                && self.server.players@[k].model().dead == before[k].model().dead
                && self.server.players@[k].model().fold == before[k].model().fold by {
                assert(self.server.players@[k].model() == before[k].model());
            }
        }
        let ghost after_bots = before;
        let ghost asend = self.server.players@;
        proof {
            assert forall|k: int|
                0 <= k < before.len() implies crate::player::seat_delivered(
                before[k],
                #[trigger] asend[k],
                seq![msg@],
            ) by {
                crate::player::lemma_delivered_one(before[k], asend[k], msg@);
            }
        }
        // starting stacks
        let n = self.server.players.len();
        let mut j: usize = 0;
        while j < n
            invariant
                self.bank == old(self).bank,
                self.max_bet == old(self).max_bet,
                self.shared == old(self).shared,
                self.shared_visible == old(self).shared_visible,
                self.dealer == old(self).dealer,
                self.players == old(self).players,
                n == self.server.players@.len(),
                n == named + bots,
                after_bots.len() == n,
                asend.len() == n,
                forall|k: int|
                    0 <= k < n ==> (#[trigger] self.server.players@[k]).owed() == asend[k].owed()
                        && self.server.players@[k].queued() == asend[k].queued()
                        && self.server.players@[k].watch() == asend[k].watch() && ((
                    self.server.players@[k]) is Human <==> (asend[k]) is Human),
                j <= n,
                n <= 0x7fff,
                forall|k: int|
                    0 <= k < n ==> (#[trigger] self.server.players@[k]).wf()
                        && self.server.players@[k].model().bet == 0
                        && self.server.players@[k].model().name is Some,
                forall|k: int|
                    0 <= k < n ==> ({
                        let m = (#[trigger] self.server.players@[k]).model();
                        let o = after_bots[k].model();
                        m.name == o.name && m.cards == o.cards && m.dead == o.dead && m.fold
                            == o.fold
                    }),
                forall|k: int|
                    0 <= k < j ==> (#[trigger] self.server.players@[k]).model().money
                        == start_money as int,
            decreases n - j,
        {
            let ghost pre = self.server.players@;
            let p = self.server.seat_mut(j);
            p.set_money(start_money);
            proof {
                assert forall|k: int|
                    0 <= k < n implies (#[trigger] self.server.players@[k]).wf()
                    && self.server.players@[k].model().bet == 0
                    && self.server.players@[k].model().name is Some && ({
                    let m = self.server.players@[k].model();
                    let o = after_bots[k].model();
                    m.name == o.name && m.cards == o.cards && m.dead == o.dead && m.fold == o.fold
                }) && (self.server.players@[k].owed() == asend[k].owed()
                    && self.server.players@[k].queued() == asend[k].queued()
                    && self.server.players@[k].watch() == asend[k].watch() && ((
                self.server.players@[k]) is Human <==> (asend[k]) is Human)) && (k < j + 1
                    ==> self.server.players@[k].model().money == start_money as int) by {
                    if k != j {
                        assert(self.server.players@[k] == pre[k]);
                    }
                }
            }
            j += 1;
        }
        self.players = n as isize;
        match dealer {
            Some(d) => {
                self.dealer = d;
            },
            None => {
                let idx = crate::rng::pick_seat(n);
                self.dealer = idx as isize;
            },
        }
        proof {
            lemma_named_count_bounds(orig);
            lemma_sums_const(self.server.players@, start_money as int);
            assert(seats_money(self.server.players@) == n as int * start_money as int);
            assert(n as int * start_money as int <= (orig.len() + bots as int) * start_money as int)
                by (nonlinear_arith)
                requires
                    0 <= named <= orig.len(),
                    n as int == named + bots,
                    0 <= bots,
                    0 <= start_money,
            ;
            assert(self.bank == 0);
            assert(self.max_bet >= 0);
            assert(seats_bets(self.server.players@) == 0);
            assert(self.players as int == n as int);
            assert(total_chips(*self) == self.players as int * start_money as int);
            assert(total_chips(*self) <= 0x7fff_ffff);
            assert(table_wf(*self));
            // the kept seats are the previously named participants in order
            assert(kept_idx.len() == named_count(orig));
            assert forall|j: int|
                0 <= j < kept_idx.len() implies ({
                let m = (#[trigger] self.server.players@[j]).model();
                let o = orig[kept_idx[j]].model();
                m.name == o.name && m.cards == o.cards && m.dead == o.dead && m.fold == o.fold
            }) by {
                assert(after_bots[j] == orig[kept_idx[j]]);
            }
            assert forall|j: int|
                kept_idx.len() <= j < self.server.players@.len() implies ({
                let m = (#[trigger] self.server.players@[j]).model();
                m.name == Some("BOT"@ + crate::text::int_dec(j - kept_idx.len())) && m.cards
                    is None && !m.dead && !m.fold
            }) by {
                assert(after_bots[j].model().name == Some(
                    "BOT"@ + crate::text::int_dec(j - named),
                ));
            }
            // the roster line every participant was dealt: composed over
            // the final seats, whose names the stack setting kept
            let ps1 = self.server.players@;
            assert(crate::message::start_tokens(after_bots) =~~= crate::message::start_tokens(
                ps1,
            )) by {
                assert forall|q: int|
                    0 <= q < crate::message::start_tokens(after_bots).len()
                    implies crate::message::start_tokens(after_bots)[q]
                    == crate::message::start_tokens(ps1)[q] by {
                    if q >= 2 {
                        assert(ps1[q - 2].model().name == after_bots[q - 2].model().name);
                    }
                }
            }
            let roster = crate::text::join_sp(crate::message::start_tokens(ps1));
            assert(msg@ == roster);
            assert forall|j: int|
                0 <= j < kept_idx.len() implies crate::player::seat_delivered(
                orig[kept_idx[j]],
                #[trigger] ps1[j],
                seq![roster],
            ) by {
                assert(after_bots[j] == orig[kept_idx[j]]);
                assert(crate::player::seat_delivered(after_bots[j], asend[j], seq![msg@]));
                crate::player::lemma_delivered_still(
                    after_bots[j],
                    asend[j],
                    ps1[j],
                    seq![msg@],
                );
            }
            assert forall|j: int|
                kept_idx.len() <= j < ps1.len() implies (#[trigger] ps1[j]).watch()
                == crate::player::watch_fold((Seq::empty(), 0), seq![roster]) by {
                assert(after_bots[j].watch() == (Seq::<Card>::empty(), 0int));
                assert(crate::player::seat_delivered(after_bots[j], asend[j], seq![msg@]));
                assert(after_bots[j] is Bot);
                assert(asend[j].watch() == crate::player::watch_fold(
                    (Seq::empty(), 0),
                    seq![msg@],
                ));
                assert(ps1[j].watch() == asend[j].watch());
            }
        }
    }

    /// Deals one hand: broadcasts the bank and stacks, shuffles a fresh
    /// deck, deals two private hole cards to every seat, resets wagers and
    /// folds, lays out five face-down community cards, and advances the
    /// dealer seat by one with wraparound.
    pub fn round(&mut self)
        requires
            table_wf(*old(self)),
            old(self).server.players@.len() * 2 + 5 <= 52,
            -0x4000_0000 <= old(self).dealer <= 0x4000_0000,
        ensures
            table_wf(*final(self)),
            final(self).players == old(self).players,
            final(self).bank == old(self).bank,
            final(self).max_bet == old(self).max_bet,
            forall|k: int|
                0 <= k < final(self).server.players@.len() ==> {
                    let m = (#[trigger] final(self).server.players@[k]).model();
                    let o = old(self).server.players@[k].model();
                    m.money == o.money && m.name == o.name && m.dead == o.dead && m.bet == 0
                        && m.fold == false && m.cards is Some
                },
            final(self).shared@.len() == 5,
            forall|k: int| 0 <= k < 5 ==> valid_card(#[trigger] final(self).shared@[k]),
            final(self).shared_visible == 0,
            final(self).dealer as int == (old(self).dealer + 1) % (old(self).players as int),
            0 <= final(self).dealer < final(self).players,
            seats_money(final(self).server.players@) == seats_money(old(self).server.players@),
            total_chips(*final(self)) == seats_money(old(self).server.players@) + old(self).bank,
            ({
                let ps0 = old(self).server.players@;
                let ps1 = final(self).server.players@;
                let n0 = ps1.len() as int;
                let r_line = crate::text::join_sp(
                    crate::message::round_tokens(old(self).bank as int, ps0),
                );
                let d_line = crate::text::join_sp(
                    seq![
                        "DEALER"@,
                        ps0[(old(self).dealer + 1) % (old(self).players as int)].model().name.unwrap(),
                    ],
                );
                forall|k: int|
                    0 <= k < n0 ==> ((#[trigger] ps1[k]).model().cards matches Some(c)
                        && crate::player::seat_delivered(
                        ps0[k],
                        ps1[k],
                        seq![
                            r_line,
                            crate::text::join_sp(
                                seq![
                                    "CARDS"@,
                                    seq![c[0].fig, c[0].col],
                                    seq![c[1].fig, c[1].col],
                                ],
                            ),
                            d_line,
                        ],
                    ))
            }),
            ({
                let ps1 = final(self).server.players@;
                let sh = final(self).shared@;
                let n0 = ps1.len() as int;
                &&& sh.no_duplicates()
                &&& (forall|k: int|
                    0 <= k < n0 ==> ((#[trigger] ps1[k]).model().cards matches Some(c) ==> c[0]
                        != c[1] && (forall|t: int|
                        0 <= t < 5 ==> c[0] != #[trigger] sh[t] && c[1] != sh[t])))
                &&& (forall|k1: int, k2: int|
                    0 <= k1 < k2 < n0 ==> ((#[trigger] ps1[k1]).model().cards matches Some(c1) && (
                    #[trigger] ps1[k2]).model().cards matches Some(c2) ==> c1[0] != c2[0] && c1[0]
                        != c2[1] && c1[1] != c2[0] && c1[1] != c2[1]))
            }),
    {
        let ghost b0 = self.server.players@;
        let ghost r_line = crate::text::join_sp(
            crate::message::round_tokens(old(self).bank as int, b0),
        );
        let msg = Message::round(self.bank, &self.server.players);
        proof {
            assert(msg@ == r_line);
        }
        self.server.send_all(msg);
        let ghost aro = self.server.players@;
        proof {
            assert forall|k: int|
                0 <= k < b0.len() implies crate::player::seat_delivered(
                b0[k],
                #[trigger] aro[k],
                seq![r_line],
            ) by {
                crate::player::lemma_delivered_one(b0[k], aro[k], msg@);
            }
        }
        let mut cards = Card::generate("23456789TJDKA", "♠♥♦♣");
        let ghost deck0 = cards@;
        proof {
            lemma_rank_alphabet();
            lemma_suit_alphabet();
            assert(cards@.len() == 52);
            assert(deck0.no_duplicates());
            assert forall|k: int| 0 <= k < cards@.len() implies valid_card(#[trigger] cards@[k]) by {
                assert("23456789TJDKA"@.contains(cards@[k].fig));
                let w = choose|w: int|
                    0 <= w < "23456789TJDKA"@.len() && "23456789TJDKA"@[w] == cards@[k].fig;
                assert(rank_char("23456789TJDKA"@[w]) >= 1);
            }
        }
        let n = self.server.players.len();
        let mut i: usize = 0;
        while i < n
            invariant
                self.bank == old(self).bank,
                self.max_bet == old(self).max_bet,
                self.shared == old(self).shared,
                self.shared_visible == old(self).shared_visible,
                self.dealer == old(self).dealer,
                self.players == old(self).players,
                n == self.server.players@.len(),
                b0.len() == n,
                n * 2 + 5 <= 52,
                i <= n,
                deck0.len() == 52,
                deck0.no_duplicates(),
                cards@ == deck0.take(52 - 2 * (i as int)),
                forall|k: int| 0 <= k < deck0.len() ==> valid_card(#[trigger] deck0[k]),
                forall|k: int| 0 <= k < cards@.len() ==> valid_card(#[trigger] cards@[k]),
                forall|k: int|
                    0 <= k < n ==> {
                        let m = (#[trigger] self.server.players@[k]).model();
                        let o = b0[k].model();
                        m.money == o.money && m.name == o.name && m.dead == o.dead
                    },
                forall|k: int|
                    0 <= k < i ==> {
                        let m = (#[trigger] self.server.players@[k]).model();
                        m.bet == 0 && m.fold == false && (m.cards matches Some(c) && c[0]
                            == deck0[51 - 2 * k] && c[1] == deck0[50 - 2 * k])
                    },
                forall|k: int| 0 <= k < n ==> (#[trigger] self.server.players@[k]).wf(),
                aro.len() == n,
                forall|k: int|
                    0 <= k < i ==> crate::player::seat_delivered(
                        b0[k],
                        #[trigger] self.server.players@[k],
                        seq![
                            r_line,
                            crate::text::join_sp(
                                seq![
                                    "CARDS"@,
                                    seq![deck0[51 - 2 * k].fig, deck0[51 - 2 * k].col],
                                    seq![deck0[50 - 2 * k].fig, deck0[50 - 2 * k].col],
                                ],
                            ),
                        ],
                    ),
                forall|k: int|
                    i <= k < n ==> crate::player::seat_delivered(
                        b0[k],
                        #[trigger] self.server.players@[k],
                        seq![r_line],
                    ),
            decreases n - i,
        {
            let c1 = cards.pop().unwrap();
            let c2 = cards.pop().unwrap();
            proof {
                assert(c1 == deck0[51 - 2 * (i as int)]);
                assert(c2 == deck0[50 - 2 * (i as int)]);
                assert(cards@ =~= deck0.take(52 - 2 * (i as int) - 2));
            }
            let mut args: Vec<String> = Vec::new();
            args.push(c1.code());
            args.push(c2.code());
            let line = compose_line("CARDS", args);
            proof {
                assert(seq!["CARDS"@] + crate::text::token_views(args@) =~~= seq![
                    "CARDS"@,
                    seq![c1.fig, c1.col],
                    seq![c2.fig, c2.col],
                ]);
            }
            let ghost pre = self.server.players@;
            let p = self.server.seat_mut(i);
            p.send(line.as_str());
            let ghost pmid = *p;
            p.set_cards([c1, c2]);
            p.set_bet(0);
            p.set_fold(false);
            proof {
                let cl = crate::text::join_sp(
                    seq![
                        "CARDS"@,
                        seq![deck0[51 - 2 * (i as int)].fig, deck0[51 - 2 * (i as int)].col],
                        seq![deck0[50 - 2 * (i as int)].fig, deck0[50 - 2 * (i as int)].col],
                    ],
                );
                assert(line@ == cl);
                crate::player::lemma_delivered_snoc(b0[i as int], pre[i as int], pmid, seq![r_line], cl);
                assert(seq![r_line].push(cl) =~~= seq![r_line, cl]);
                crate::player::lemma_delivered_still(
                    b0[i as int],
                    pmid,
                    self.server.players@[i as int],
                    seq![r_line, cl],
                );
                assert forall|k: int|
                    0 <= k < n && k != i implies crate::player::seat_delivered(
                    b0[k],
                    #[trigger] self.server.players@[k],
                    if k < i {
                        seq![
                            r_line,
                            crate::text::join_sp(
                                seq![
                                    "CARDS"@,
                                    seq![deck0[51 - 2 * k].fig, deck0[51 - 2 * k].col],
                                    seq![deck0[50 - 2 * k].fig, deck0[50 - 2 * k].col],
                                ],
                            ),
                        ]
                    } else {
                        seq![r_line]
                    },
                ) by {
                    assert(self.server.players@[k] == pre[k]);
                }
            }
            proof {
                assert forall|k: int|
                    0 <= k < n implies ({
                    let m = (#[trigger] self.server.players@[k]).model();
                    let o = b0[k].model();
                    &&& m.money == o.money
                    &&& m.name == o.name
                    &&& m.dead == o.dead
                    &&& (k < i + 1 ==> m.bet == 0 && m.fold == false && (m.cards matches Some(c)
                        && c[0] == deck0[51 - 2 * k] && c[1] == deck0[50 - 2 * k]))
                    &&& self.server.players@[k].wf()
                }) by {
                    if k != i {
                        assert(self.server.players@[k] == pre[k]);
                    }
                }
            }
            i += 1;
        }
        let mut sh: Vec<Card> = Vec::new();
        let mut j: usize = 0;
        let ghost nn = self.server.players@.len() as int;
        while j < 5
            invariant
                j <= 5,
                nn == self.server.players@.len() as int,
                deck0.len() == 52,
                cards@ == deck0.take(52 - 2 * nn - (j as int)),
                self.server.players@.len() * 2 + 5 <= 52,
                forall|k: int| 0 <= k < deck0.len() ==> valid_card(#[trigger] deck0[k]),
                forall|k: int| 0 <= k < cards@.len() ==> valid_card(#[trigger] cards@[k]),
                sh@.len() == j,
                forall|k: int| 0 <= k < sh@.len() ==> valid_card(#[trigger] sh@[k]),
                forall|k: int| 0 <= k < sh@.len() ==> (#[trigger] sh@[k]) == deck0[51 - 2 * nn - k],
            decreases 5 - j,
        {
            let c = cards.pop().unwrap();
            proof {
                assert(c == deck0[51 - 2 * nn - (j as int)]);
                assert(cards@ =~= deck0.take(52 - 2 * nn - (j as int) - 1));
            }
            sh.push(c);
            j += 1;
        }
        self.shared = sh;
        self.shared_visible = 0;
        let nd = self.get_pos(self.dealer + 1);
        self.dealer = nd;
        let ghost didx = self.dealer as int;
        let dealer_name = {
            let ghost pre = self.server.players@;
            let p = self.server.get_player(self.dealer);
            proof {
                vstd::arithmetic::div_mod::lemma_small_mod(didx as nat, pre.len() as nat);
                assert(*p == pre[didx]);
            }
            let nm = match p.get_name() {
                Some(nm) => nm,
                None => String::new(),
            };
            proof {
                assert(self.server.players@ =~= pre);
                assert(nm@ == pre[didx].model().name.unwrap());
                assert(pre[didx].model().name == b0[didx].model().name);
            }
            nm
        };
        proof {
            assert(didx == (old(self).dealer + 1) % (old(self).players as int));
            assert(dealer_name@ == b0[didx].model().name.unwrap());
        }
        let mut args: Vec<String> = Vec::new();
        args.push(dealer_name);
        let line = compose_line("DEALER", args);
        proof {
            assert(seq!["DEALER"@] + crate::text::token_views(args@) =~~= seq![
                "DEALER"@,
                b0[(old(self).dealer + 1) % (old(self).players as int)].model().name.unwrap(),
            ]);
        }
        let ghost b1 = self.server.players@;
        self.server.send_all(line);
        proof {
            let d_line = crate::text::join_sp(
                seq![
                    "DEALER"@,
                    b0[(old(self).dealer + 1) % (old(self).players as int)].model().name.unwrap(),
                ],
            );
            assert(line@ == d_line);
            assert forall|k: int|
                0 <= k < self.server.players@.len() implies crate::player::seat_delivered(
                b0[k],
                #[trigger] self.server.players@[k],
                seq![
                    r_line,
                    crate::text::join_sp(
                        seq![
                            "CARDS"@,
                            seq![deck0[51 - 2 * k].fig, deck0[51 - 2 * k].col],
                            seq![deck0[50 - 2 * k].fig, deck0[50 - 2 * k].col],
                        ],
                    ),
                    d_line,
                ],
            ) by {
                let cl = crate::text::join_sp(
                    seq![
                        "CARDS"@,
                        seq![deck0[51 - 2 * k].fig, deck0[51 - 2 * k].col],
                        seq![deck0[50 - 2 * k].fig, deck0[50 - 2 * k].col],
                    ],
                );
                crate::player::lemma_delivered_still(b0[k], b1[k], b1[k], seq![r_line, cl]);
                crate::player::lemma_delivered_snoc(
                    b0[k],
                    b1[k],
                    self.server.players@[k],
                    seq![r_line, cl],
                    d_line,
                );
                assert(seq![r_line, cl].push(d_line) =~~= seq![r_line, cl, d_line]);
            }
            assert forall|k: int|
                0 <= k < self.server.players@.len() implies ({
                let m = (#[trigger] self.server.players@[k]).model();
                let o = b0[k].model();
                &&& m.money == o.money
                &&& m.name == o.name
                &&& m.dead == o.dead
                &&& m.bet == 0
                &&& m.fold == false
                &&& (m.cards matches Some(c) && c[0] == deck0[51 - 2 * k] && c[1] == deck0[50 - 2
                    * k])
                &&& self.server.players@[k].wf()
            }) by {
                assert(self.server.players@[k].model() == b1[k].model());
                assert(b1[k].wf() ==> self.server.players@[k].wf());
            }
            lemma_sums_money_same(b0, self.server.players@);
            lemma_bets_sum_zero(self.server.players@);
            lemma_sums_nonneg(b0);
            // every dealt card sits at its own deck position, so the deal
            // holds no repeated card
            let ps1 = self.server.players@;
            let shv = self.shared@;
            let n0 = ps1.len() as int;
            assert forall|k: int|
                0 <= k < n0 implies ((#[trigger] ps1[k]).model().cards matches Some(c) ==> c[0]
                != c[1] && (forall|t: int| 0 <= t < 5 ==> c[0] != #[trigger] shv[t] && c[1]
                != shv[t])) by {
                assert(ps1[k].model().cards matches Some(c) && c[0] == deck0[51 - 2 * k] && c[1]
                    == deck0[50 - 2 * k]);
                assert forall|t: int| 0 <= t < 5 implies (ps1[k].model().cards matches Some(c)
                    ==> c[0] != #[trigger] shv[t] && c[1] != shv[t]) by {
                    assert(shv[t] == deck0[51 - 2 * n0 - t]);
                }
            }
            assert forall|k1: int, k2: int|
                0 <= k1 < k2 < n0 implies ((#[trigger] ps1[k1]).model().cards matches Some(c1) && (
            #[trigger] ps1[k2]).model().cards matches Some(c2) ==> c1[0] != c2[0] && c1[0] != c2[1]
                && c1[1] != c2[0] && c1[1] != c2[1]) by {
                assert(ps1[k1].model().cards matches Some(c1) && c1[0] == deck0[51 - 2 * k1]
                    && c1[1] == deck0[50 - 2 * k1]);
                assert(ps1[k2].model().cards matches Some(c2) && c2[0] == deck0[51 - 2 * k2]
                    && c2[1] == deck0[50 - 2 * k2]);
            }
            assert forall|t1: int, t2: int| 0 <= t1 < t2 < shv.len() implies shv[t1] != shv[t2] by {
                assert(shv[t1] == deck0[51 - 2 * n0 - t1]);
                assert(shv[t2] == deck0[51 - 2 * n0 - t2]);
            }
        }
    }

    /// Broadcasts one line: it is delivered to every seat in order, and no
    /// participant state the table models changes.
    fn broadcast(&mut self, line: String)
        requires
            table_wf(*old(self)),
        ensures
            table_wf(*final(self)),
            total_chips(*final(self)) == total_chips(*old(self)),
            final(self).server.players@.len() == old(self).server.players@.len(),
            forall|k: int|
                0 <= k < old(self).server.players@.len() ==> (
                #[trigger] final(self).server.players@[k]).model()
                    == old(self).server.players@[k].model(),
            forall|k: int|
                0 <= k < old(self).server.players@.len() ==> crate::player::seat_sent(
                    old(self).server.players@[k],
                    #[trigger] final(self).server.players@[k],
                    line@,
                ),
            forall|k: int|
                0 <= k < old(self).server.players@.len() ==> crate::player::seat_delivered(
                    old(self).server.players@[k],
                    #[trigger] final(self).server.players@[k],
                    seq![line@],
                ),
            final(self).bank == old(self).bank,
            final(self).shared == old(self).shared,
            final(self).shared_visible == old(self).shared_visible,
            final(self).max_bet == old(self).max_bet,
            final(self).dealer == old(self).dealer,
            final(self).players == old(self).players,
    {
        let ghost pre = self.server.players@;
        self.server.send_all(line);
        proof {
            lemma_sums_same(pre, self.server.players@);
            assert forall|k: int|
                0 <= k < pre.len() implies crate::player::seat_delivered(
                pre[k],
                #[trigger] self.server.players@[k],
                seq![line@],
            ) by {
                crate::player::lemma_delivered_one(pre[k], self.server.players@[k], line@);
            }
        }
    }

    /// Applies one wager request at a seat, with the all-in clamp. The
    /// seat's stack plus wager — and so the table total — is preserved.
    fn seat_wager(&mut self, idx: usize, amount: i32)
        requires
            table_wf(*old(self)),
            idx < old(self).server.players@.len(),
            amount >= 0,
        ensures
            table_wf(*final(self)),
            total_chips(*final(self)) == total_chips(*old(self)),
            final(self).server.players@.len() == old(self).server.players@.len(),
            forall|k: int|
                0 <= k < old(self).server.players@.len() && k != idx ==> (
                #[trigger] final(self).server.players@[k]) == old(self).server.players@[k],
            ({
                let m = final(self).server.players@[idx as int].model();
                let o = old(self).server.players@[idx as int].model();
                &&& m.fold == o.fold
                &&& m.cards == o.cards
                &&& m.name == o.name
                &&& m.dead == o.dead
                &&& m.money + m.bet == o.money + o.bet
                &&& (amount - o.bet > o.money ==> m.money == 0 && m.bet == o.bet + o.money)
                &&& (amount - o.bet <= o.money ==> m.money == o.money - (amount - o.bet) && m.bet
                    == amount as int)
                &&& m == wager_clamp(o, amount as int)
            }),
            forall|k: int|
                0 <= k < old(self).server.players@.len() ==> (
                #[trigger] final(self).server.players@[k]).queued()
                    == old(self).server.players@[k].queued(),
            forall|k: int|
                0 <= k < old(self).server.players@.len() ==> (
                #[trigger] final(self).server.players@[k]).owed()
                    == old(self).server.players@[k].owed() && final(self).server.players@[k].watch()
                    == old(self).server.players@[k].watch() && ((
                old(self).server.players@[k]) is Human <==> (final(self).server.players@[k]) is Human),
            final(self).bank == old(self).bank,
            final(self).shared == old(self).shared,
            final(self).shared_visible == old(self).shared_visible,
            final(self).max_bet == old(self).max_bet,
            final(self).dealer == old(self).dealer,
            final(self).players == old(self).players,
    {
        let ghost pre = self.server.players@;
        proof {
            lemma_sums_bound(pre, idx as int);
        }
        let p = self.server.seat_mut(idx);
        p.bet(amount);
        proof {
            lemma_sums_update(pre, idx as int, self.server.players@[idx as int]);
            assert forall|k: int|
                0 <= k < self.server.players@.len() implies ({
                let m = (#[trigger] self.server.players@[k]).model();
                m.money >= 0 && m.bet >= 0 && m.name is Some && self.server.players@[k].wf()
            }) by {
                if k != idx {
                    assert(self.server.players@[k] == pre[k]);
                }
            }
        }
    }

    /// Posts the blinds: the seat after the dealer posts the small blind,
    /// the next posts the big blind, and the betting ceiling becomes the
    /// larger of the two. All chips on the table are conserved.
    pub fn first_bet(&mut self, small: i32, big: i32)
        requires
            table_wf(*old(self)),
            small >= 0,
            big >= 0,
            -0x4000_0000 <= old(self).dealer <= 0x4000_0000,
        ensures
            table_wf(*final(self)),
            total_chips(*final(self)) == total_chips(*old(self)),
            final(self).max_bet as int == if big > small {
                big as int
            } else {
                small as int
            },
            forall|k: int|
                0 <= k < old(self).server.players@.len() ==> {
                    let m = (#[trigger] final(self).server.players@[k]).model();
                    let o = old(self).server.players@[k].model();
                    m.fold == o.fold && m.cards == o.cards && m.name == o.name && m.dead == o.dead
                        && m.money + m.bet == o.money + o.bet
                },
            ({
                let ps = old(self).server.players@;
                let n0 = old(self).players as int;
                let sb = (old(self).dealer + 1) % n0;
                let bb = (old(self).dealer + 2) % n0;
                &&& (sb != bb ==> final(self).server.players@[sb].model() == wager_clamp(
                    ps[sb].model(),
                    small as int,
                ) && final(self).server.players@[bb].model() == wager_clamp(
                    ps[bb].model(),
                    big as int,
                ))
                &&& (sb == bb ==> final(self).server.players@[sb].model() == wager_clamp(
                    wager_clamp(ps[sb].model(), small as int),
                    big as int,
                ))
                &&& forall|k: int|
                    0 <= k < n0 && k != sb && k != bb ==> (
                    #[trigger] final(self).server.players@[k]).model() == ps[k].model()
            }),
            ({
                let ps = old(self).server.players@;
                let n0 = old(self).players as int;
                let sb = (old(self).dealer + 1) % n0;
                let bb = (old(self).dealer + 2) % n0;
                let sb_line = crate::text::join_sp(
                    seq![
                        "SBLIND"@,
                        ps[sb].model().name.unwrap(),
                        crate::text::int_dec(small as int),
                    ],
                );
                let bb_line = crate::text::join_sp(
                    seq![
                        "BBLIND"@,
                        ps[bb].model().name.unwrap(),
                        crate::text::int_dec(big as int),
                    ],
                );
                forall|k: int|
                    0 <= k < ps.len() ==> crate::player::seat_delivered(
                        ps[k],
                        #[trigger] final(self).server.players@[k],
                        seq![sb_line, bb_line],
                    )
            }),
            final(self).bank == old(self).bank,
            final(self).shared == old(self).shared,
            final(self).shared_visible == old(self).shared_visible,
            final(self).dealer == old(self).dealer,
            final(self).players == old(self).players,
    {
        let ghost ps0 = self.server.players@;
        let ghost sb_line_spec = crate::text::join_sp(
            seq![
                "SBLIND"@,
                ps0[(old(self).dealer + 1) % (old(self).players as int)].model().name.unwrap(),
                crate::text::int_dec(small as int),
            ],
        );
        let ghost bb_line_spec = crate::text::join_sp(
            seq![
                "BBLIND"@,
                ps0[(old(self).dealer + 2) % (old(self).players as int)].model().name.unwrap(),
                crate::text::int_dec(big as int),
            ],
        );
        let sb = self.get_pos(self.dealer + 1);
        self.seat_wager(sb as usize, small);
        let ghost a1 = self.server.players@;
        proof {
            assert forall|k: int|
                0 <= k < ps0.len() implies crate::player::seat_delivered(
                ps0[k],
                #[trigger] a1[k],
                Seq::<Seq<char>>::empty(),
            ) by {
                crate::player::lemma_delivered_zero(ps0[k]);
                crate::player::lemma_delivered_still(ps0[k], ps0[k], a1[k], Seq::empty());
            }
        }
        let sb_name = match self.server.players[sb as usize].get_name() {
            Some(n) => n,
            None => String::new(),
        };
        let mut args: Vec<String> = Vec::new();
        args.push(sb_name);
        args.push(crate::text::i32_dec_str(small));
        let line = compose_line("SBLIND", args);
        proof {
            assert(seq!["SBLIND"@] + crate::text::token_views(args@) =~~= seq![
                "SBLIND"@,
                ps0[(old(self).dealer + 1) % (old(self).players as int)].model().name.unwrap(),
                crate::text::int_dec(small as int),
            ]);
            assert(line@ == sb_line_spec);
        }
        self.broadcast(line);
        let ghost a2 = self.server.players@;
        proof {
            assert forall|k: int|
                0 <= k < ps0.len() implies crate::player::seat_delivered(
                ps0[k],
                #[trigger] a2[k],
                seq![sb_line_spec],
            ) by {
                crate::player::lemma_delivered_snoc(
                    ps0[k],
                    a1[k],
                    a2[k],
                    Seq::empty(),
                    sb_line_spec,
                );
                assert(Seq::<Seq<char>>::empty().push(sb_line_spec) =~~= seq![sb_line_spec]);
            }
        }
        let bb = self.get_pos(sb + 1);
        proof {
            lemma_mod_step(self.dealer as int + 1, self.players as int);
            assert(bb as int == (old(self).dealer + 2) % (old(self).players as int));
        }
        self.seat_wager(bb as usize, big);
        let ghost a3 = self.server.players@;
        proof {
            assert forall|k: int|
                0 <= k < ps0.len() implies crate::player::seat_delivered(
                ps0[k],
                #[trigger] a3[k],
                seq![sb_line_spec],
            ) by {
                crate::player::lemma_delivered_still(ps0[k], a2[k], a3[k], seq![sb_line_spec]);
            }
        }
        let bb_name = match self.server.players[bb as usize].get_name() {
            Some(n) => n,
            None => String::new(),
        };
        let mut args: Vec<String> = Vec::new();
        args.push(bb_name);
        args.push(crate::text::i32_dec_str(big));
        let line = compose_line("BBLIND", args);
        proof {
            assert(seq!["BBLIND"@] + crate::text::token_views(args@) =~~= seq![
                "BBLIND"@,
                ps0[(old(self).dealer + 2) % (old(self).players as int)].model().name.unwrap(),
                crate::text::int_dec(big as int),
            ]);
            assert(line@ == bb_line_spec);
        }
        self.broadcast(line);
        proof {
            assert forall|k: int|
                0 <= k < ps0.len() implies crate::player::seat_delivered(
                ps0[k],
                #[trigger] self.server.players@[k],
                seq![sb_line_spec, bb_line_spec],
            ) by {
                crate::player::lemma_delivered_snoc(
                    ps0[k],
                    a3[k],
                    self.server.players@[k],
                    seq![sb_line_spec],
                    bb_line_spec,
                );
                assert(seq![sb_line_spec].push(bb_line_spec) =~~= seq![
                    sb_line_spec,
                    bb_line_spec,
                ]);
            }
        }
        self.max_bet = if big > small {
            big
        } else {
            small
        };
    }

    /// Opens a betting street that starts `start` seats past the dealer.
    pub fn street_begin(&self, start: isize) -> (st: BetRound)
        requires
            table_wf(*self),
            0 <= start <= 8,
            -0x4000_0000 <= self.dealer <= 0x4000_0000,
        ensures
            st.pos as int == (self.dealer + start) % (self.players as int),
            0 <= st.pos < self.players,
            st.played == 0,
            !st.prompted,
    {
        BetRound { pos: self.get_pos(self.dealer + start), played: 0, prompted: false }
    }

    /// Whether the street has ended: at most one participant who is
    /// neither folded nor all-in remains, or every seat has acted at least
    /// once and every such participant's wager equals the ceiling.
    pub fn street_done(&self, st: &BetRound) -> (r: bool)
        ensures
            r == street_over(*self, st.played as int),
    {
        let ghost ps = self.server.players@;
        let n = self.server.players.len();
        let mut active: usize = 0;
        let mut matched = true;
        let mut k: usize = 0;
        while k < n
            invariant
                n == ps.len(),
                ps == self.server.players@,
                k <= n,
                active <= k,
                active as int == active_count(ps.take(k as int)),
                matched == (forall|i: int|
                    0 <= i < k ==> {
                        let m = (#[trigger] ps[i]).model();
                        (!m.fold && m.money != 0) ==> m.bet == self.max_bet as int
                    }),
            decreases n - k,
        {
            proof {
                lemma_counts_take_step(ps, k as int);
            }
            let fold = self.server.players[k].get_fold();
            let money = self.server.players[k].get_money();
            let bet = self.server.players[k].get_bet();
            if !fold && money != 0 {
                active = active + 1;
                if bet != self.max_bet {
                    matched = false;
                }
            }
            k += 1;
        }
        proof {
            assert(ps.take(n as int) =~= ps);
        }
        active <= 1 || (st.played >= self.players && matched)
    }

    /// Finds the first seat at or cyclically after `from` that can still
    /// act, with how many inactive seats were passed over on the way.
    fn find_active(&self, from: usize) -> (r: Option<(usize, usize)>)
        requires
            table_wf(*self),
            from < self.server.players@.len(),
        ensures
            r matches Some(p) ==> p.0 < self.server.players@.len() && p.1
                < self.server.players@.len() && p.0 as int == (from as int + p.1 as int) % (
            self.server.players@.len() as int) && !seat_inactive(
                self.server.players@[p.0 as int],
            ) && (forall|d: int|
                0 <= d < p.1 ==> seat_inactive(
                    #[trigger] self.server.players@[(from as int + d) % (
                    self.server.players@.len() as int)],
                )),
            r matches Some(p) ==> first_active_at(self.server.players@, from as int, p.0 as int),
            r is None ==> forall|idx: int| !first_active_at(
                self.server.players@,
                from as int,
                idx,
            ),
    {
        let n = self.server.players.len();
        let ghost n0 = n as int;
        proof {
            vstd::arithmetic::div_mod::lemma_small_mod(from as nat, n as nat);
        }
        let mut cur = from;
        let mut off: usize = 0;
        let mut res: Option<(usize, usize)> = None;
        while off < n
            invariant
                n == self.server.players@.len(),
                n0 == n as int,
                n >= 1,
                from < n,
                cur < n,
                off <= n,
                cur as int == (from as int + off as int) % n0,
                res is None ==> forall|d: int|
                    0 <= d < off ==> seat_inactive(
                        #[trigger] self.server.players@[(from as int + d) % n0],
                    ),
                res matches Some(p) ==> p.0 < n && p.1 < n && p.0 as int == (from as int
                    + p.1 as int) % n0 && !seat_inactive(self.server.players@[p.0 as int]) && (
                forall|d: int|
                    0 <= d < p.1 ==> seat_inactive(
                        #[trigger] self.server.players@[(from as int + d) % n0],
                    )),
            decreases n - off,
        {
            if res.is_none() {
                let fold = self.server.players[cur].get_fold();
                let money = self.server.players[cur].get_money();
                if !fold && money != 0 {
                    res = Some((cur, off));
                }
            }
            proof {
                lemma_mod_step(from as int + off as int, n0);
                if cur + 1 >= n {
                    vstd::arithmetic::div_mod::lemma_mod_self_0(n0);
                } else {
                    vstd::arithmetic::div_mod::lemma_small_mod((cur + 1) as nat, n as nat);
                }
            }
            cur = if cur + 1 >= n {
                0
            } else {
                cur + 1
            };
            off += 1;
        }
        proof {
            match res {
                Some(p) => {
                    assert(first_active_at(self.server.players@, from as int, p.0 as int)) by {
                        assert(0 <= p.1 < n && p.0 as int == (from as int + p.1 as int) % n0
                            && !seat_inactive(self.server.players@[p.0 as int]));
                    }
                },
                None => {
                    assert forall|idx: int| !first_active_at(
                        self.server.players@,
                        from as int,
                        idx,
                    ) by {
                        if first_active_at(self.server.players@, from as int, idx) {
                            let off = choose|off: int|
                                #![trigger (from as int + off) % n0]
                                0 <= off < n && idx == (from as int + off) % n0 && !seat_inactive(
                                    self.server.players@[idx],
                                ) && (forall|d: int|
                                    0 <= d < off ==> seat_inactive(
                                        #[trigger] self.server.players@[(from as int + d) % n0],
                                    ));
                            assert(seat_inactive(self.server.players@[(from as int + off) % n0]));
                        }
                    }
                },
            }
        }
        res
    }

    /// One turn of a betting street: skips folded and all-in seats, prompts
    /// the participant whose turn it is, and applies its next action — a
    /// wager at or above the ceiling (raising it if higher), a fold, or an
    /// ignored unrecognized line. A wager below the ceiling is reported as
    /// a protocol violation; a live network participant with no line queued
    /// yet is prompted and reported so the embedding can feed one in and
    /// step again.
    #[verifier::rlimit(100)]
    #[verifier::spinoff_prover]
    pub fn bet_step(&mut self, st: &mut BetRound) -> (r: BetStep)
        requires
            table_wf(*old(self)),
            old(self).players <= 0x7fff,
            0 <= old(st).played <= old(self).players,
        ensures
            table_wf(*final(self)),
            total_chips(*final(self)) == total_chips(*old(self)),
            final(self).max_bet >= old(self).max_bet,
            final(self).players == old(self).players,
            final(self).bank == old(self).bank,
            final(self).shared == old(self).shared,
            final(self).shared_visible == old(self).shared_visible,
            final(self).dealer == old(self).dealer,
            final(self).server.players@.len() == old(self).server.players@.len(),
            forall|k: int|
                0 <= k < old(self).server.players@.len() ==> {
                    let m = (#[trigger] final(self).server.players@[k]).model();
                    let o = old(self).server.players@[k].model();
                    m.name == o.name && m.cards == o.cards && m.dead == o.dead && m.money + m.bet
                        == o.money + o.bet && (o.fold ==> m.fold)
                },
            0 <= final(st).played <= final(self).players,
            r is Finished ==> forall|k: int|
                0 <= k < old(self).server.players@.len() ==> (
                #[trigger] final(self).server.players@[k]).model()
                    == old(self).server.players@[k].model(),
            bet_step_transition(*old(self), *final(self), old(st).pos as int, old(st).prompted, r),
    {
        let ghost ps = self.server.players@;
        let n = self.server.players.len();
        let base = self.get_pos(st.pos) as usize;
        match self.find_active(base) {
            None => {
                proof {
                    assert(bet_step_transition(
                        *old(self),
                        *self,
                        old(st).pos as int,
                        old(st).prompted,
                        BetStep::Finished,
                    ));
                }
                BetStep::Finished
            },
            Some((idx, skipped)) => {
                proof {
                    reveal_strlit("BET");
                    reveal_strlit("FOLD");
                    reveal_strlit("READY");
                }
                st.pos = idx as isize;
                let name = match self.server.players[idx].get_name() {
                    Some(nm) => nm,
                    None => String::new(),
                };
                proof {
                    assert(name@ == ps[idx as int].model().name.unwrap());
                }
                // take the seat's action first: the prompt line below
                // changes no queued input
                let act = {
                    proof {
                        lemma_sums_bound(ps, idx as int);
                    }
                    let p = self.server.seat_mut(idx);
                    p.next_action()
                };
                let ghost a1 = self.server.players@;
                proof {
                    assert forall|k: int|
                        0 <= k < self.server.players@.len() implies (
                    #[trigger] self.server.players@[k]).model() == ps[k].model()
                        && self.server.players@[k].wf() by {
                        if k != idx {
                            assert(self.server.players@[k] == ps[k]);
                        }
                    }
                    lemma_sums_same(ps, self.server.players@);
                    assert forall|k: int|
                        0 <= k < ps.len() implies crate::player::seat_told(
                        ps[k],
                        #[trigger] a1[k],
                        Seq::empty(),
                    ) by {
                        crate::player::lemma_told_zero(ps[k]);
                        if k == idx {
                            assert(a1[k].owed() == ps[k].owed() && a1[k].watch() == ps[k].watch()
                                && (ps[k] is Human <==> a1[k] is Human)) by {
                                match ps[k] {
                                    Seat::Human(h) => {
                                        assert(a1[k] matches Seat::Human(h2) && h2.outbox
                                            == h.outbox);
                                    },
                                    Seat::Bot(b) => {
                                        assert(a1[k] == ps[k]);
                                    },
                                }
                            }
                            crate::player::lemma_told_still(ps[k], ps[k], a1[k], Seq::empty());
                        } else {
                            assert(a1[k] == ps[k]);
                        }
                    }
                }
                match act {
                    None => {
                        if !st.prompted {
                            let mut args: Vec<String> = Vec::new();
                            args.push(name);
                            let line = compose_line("MOVE", args);
                            proof {
                                assert(seq!["MOVE"@] + crate::text::token_views(args@) =~~= seq![
                                    "MOVE"@,
                                    ps[idx as int].model().name.unwrap(),
                                ]);
                                assert(line@ == move_line_of(ps, idx as int));
                            }
                            self.broadcast(line);
                            proof {
                                assert forall|k: int|
                                    0 <= k < ps.len() implies crate::player::seat_told(
                                    ps[k],
                                    #[trigger] self.server.players@[k],
                                    prompt_lines(ps, idx as int, old(st).prompted),
                                ) by {
                                    crate::player::lemma_told_snoc(
                                        ps[k],
                                        a1[k],
                                        self.server.players@[k],
                                        Seq::empty(),
                                        move_line_of(ps, idx as int),
                                    );
                                    assert(Seq::<Seq<char>>::empty().push(
                                        move_line_of(ps, idx as int),
                                    ) =~~= seq![move_line_of(ps, idx as int)]);
                                }
                            }
                            st.prompted = true;
                        }
                        proof {
                            assert(first_active_at(ps, old(st).pos as int % (ps.len() as int), idx as int));
                            assert forall|k: int|
                                0 <= k < ps.len() implies (
                            #[trigger] self.server.players@[k]).model() == ps[k].model() by {}
                            if old(st).prompted {
                                assert forall|k: int|
                                    0 <= k < ps.len() implies crate::player::seat_told(
                                    ps[k],
                                    #[trigger] self.server.players@[k],
                                    prompt_lines(ps, idx as int, old(st).prompted),
                                ) by {
                                    assert(crate::player::seat_told(ps[k], a1[k], Seq::empty()));
                                }
                            }
                        }
                        proof {
                            assert(bet_step_transition(
                                *old(self),
                                *self,
                                old(st).pos as int,
                                old(st).prompted,
                                BetStep::NeedInput(idx),
                            ));
                        }
                        BetStep::NeedInput(idx)
                    },
                    Some(line) => {
                        if !st.prompted {
                            let mut args: Vec<String> = Vec::new();
                            args.push(name.clone());
                            let line = compose_line("MOVE", args);
                            proof {
                                assert(seq!["MOVE"@] + crate::text::token_views(args@) =~~= seq![
                                    "MOVE"@,
                                    ps[idx as int].model().name.unwrap(),
                                ]);
                                assert(line@ == move_line_of(ps, idx as int));
                            }
                            self.broadcast(line);
                        }
                        let ghost a2 = self.server.players@;
                        proof {
                            assert forall|k: int|
                                0 <= k < ps.len() implies crate::player::seat_told(
                                ps[k],
                                #[trigger] a2[k],
                                prompt_lines(ps, idx as int, old(st).prompted),
                            ) by {
                                if old(st).prompted {
                                    assert(a2[k] == a1[k]);
                                    assert(crate::player::seat_told(ps[k], a1[k], Seq::empty()));
                                } else {
                                    crate::player::lemma_told_snoc(
                                        ps[k],
                                        a1[k],
                                        a2[k],
                                        Seq::empty(),
                                        move_line_of(ps, idx as int),
                                    );
                                    assert(Seq::<Seq<char>>::empty().push(
                                        move_line_of(ps, idx as int),
                                    ) =~~= seq![move_line_of(ps, idx as int)]);
                                }
                            }
                        }
                        st.prompted = false;
                        let inc = skipped + 1;
                        st.played = if st.played >= self.players {
                            self.players
                        } else if st.played + (inc as isize) >= self.players {
                            self.players
                        } else {
                            st.played + (inc as isize)
                        };
                        st.pos = (idx as isize) + 1;
                        proof {
                            assert(line@ == ps[idx as int].action_line());
                        }
                        let msg = Message::from_str(&line);
                        match msg {
                            Message::Bet { money } => {
                                if money < self.max_bet {
                                    proof {
                                        assert forall|k: int|
                                            0 <= k < ps.len() implies crate::player::seat_told(
                                            ps[k],
                                            #[trigger] self.server.players@[k],
                                            prompt_lines(ps, idx as int, old(st).prompted),
                                        ) by {
                                            assert(self.server.players@[k] == a2[k]);
                                        }
                                        assert(first_active_at(
                                            ps,
                                            old(st).pos as int % (ps.len() as int),
                                            idx as int,
                                        ));
                                        assert forall|k: int|
                                            0 <= k < ps.len() implies (
                                        #[trigger] self.server.players@[k]).model()
                                            == ps[k].model() by {}
                                    }
                                    proof {
                                        assert(bet_step_transition(
                                            *old(self),
                                            *self,
                                            old(st).pos as int,
                                            old(st).prompted,
                                            BetStep::Violation(idx),
                                        ));
                                    }
                                    return BetStep::Violation(idx);
                                }
                                let ghost pre_wager = self.server.players@;
                                self.seat_wager(idx, money);
                                if money > self.max_bet {
                                    self.max_bet = money;
                                }
                                let ghost a3 = self.server.players@;
                                let mut args: Vec<String> = Vec::new();
                                args.push(crate::text::i32_dec_str(money));
                                args.push(name);
                                let line = compose_line("BET", args);
                                proof {
                                    assert(seq!["BET"@] + crate::text::token_views(args@)
                                        =~~= seq![
                                        "BET"@,
                                        crate::text::int_dec(money as int),
                                        ps[idx as int].model().name.unwrap(),
                                    ]);
                                }
                                self.broadcast(line);
                                proof {
                                    let bl = crate::text::join_sp(
                                        seq![
                                            "BET"@,
                                            crate::text::int_dec(money as int),
                                            ps[idx as int].model().name.unwrap(),
                                        ],
                                    );
                                    assert(line@ == bl);
                                    assert forall|k: int|
                                        0 <= k < ps.len() implies crate::player::seat_told(
                                        ps[k],
                                        #[trigger] self.server.players@[k],
                                        prompt_lines(ps, idx as int, old(st).prompted).push(bl),
                                    ) by {
                                        crate::player::lemma_told_still(
                                            ps[k],
                                            a2[k],
                                            a3[k],
                                            prompt_lines(ps, idx as int, old(st).prompted),
                                        );
                                        crate::player::lemma_told_snoc(
                                            ps[k],
                                            a3[k],
                                            self.server.players@[k],
                                            prompt_lines(ps, idx as int, old(st).prompted),
                                            bl,
                                        );
                                    }
                                    assert(prompt_lines(ps, idx as int, old(st).prompted).push(bl)
                                        =~~= prompt_lines(ps, idx as int, old(st).prompted)
                                        + seq![bl]);
                                }
                                proof {
                                    let n0 = ps.len() as int;
                                    let base = old(st).pos as int % n0;
                                    assert(first_active_at(ps, base, idx as int));
                                    assert forall|j: int|
                                        #[trigger] first_active_at(ps, base, j) implies j
                                        == idx as int by {
                                        lemma_first_active_unique(ps, base, j, idx as int);
                                    }
                                    assert(self.server.players@[idx as int].model() == wager_clamp(
                                        ps[idx as int].model(),
                                        money as int,
                                    ));
                                    assert forall|k: int|
                                        0 <= k < n0 && k != idx implies (
                                    #[trigger] self.server.players@[k]).model()
                                        == ps[k].model() by {
                                        assert(self.server.players@[k].model()
                                            == pre_wager[k].model());
                                        assert(pre_wager[k].model() == ps[k].model());
                                    }
                                    assert(bet_step_transition(
                                        *old(self),
                                        *self,
                                        old(st).pos as int,
                                        old(st).prompted,
                                        BetStep::Acted,
                                    ));
                                }
                                BetStep::Acted
                            },
                            Message::Fold => {
                                let ghost pre2 = self.server.players@;
                                {
                                    let p = self.server.seat_mut(idx);
                                    p.set_fold(true);
                                }
                                proof {
                                    assert forall|k: int|
                                        0 <= k < self.server.players@.len() implies ({
                                        let m = (#[trigger] self.server.players@[k]).model();
                                        let o = pre2[k].model();
                                        &&& (k != idx ==> m == o)
                                        &&& m.money == o.money
                                        &&& m.bet == o.bet
                                        &&& m.name == o.name
                                        &&& m.cards == o.cards
                                        &&& m.dead == o.dead
                                        &&& (o.fold ==> m.fold)
                                        &&& self.server.players@[k].wf()
                                    }) by {
                                        if k != idx {
                                            assert(self.server.players@[k] == pre2[k]);
                                        }
                                    }
                                    lemma_sums_same(pre2, self.server.players@);
                                }
                                let ghost a3 = self.server.players@;
                                let mut args: Vec<String> = Vec::new();
                                args.push(name);
                                let line = compose_line("FOLD", args);
                                proof {
                                    assert(seq!["FOLD"@] + crate::text::token_views(args@)
                                        =~~= seq![
                                        "FOLD"@,
                                        ps[idx as int].model().name.unwrap(),
                                    ]);
                                }
                                self.broadcast(line);
                                proof {
                                    let fl = crate::text::join_sp(
                                        seq!["FOLD"@, ps[idx as int].model().name.unwrap()],
                                    );
                                    assert(line@ == fl);
                                    assert forall|k: int|
                                        0 <= k < ps.len() implies crate::player::seat_told(
                                        ps[k],
                                        #[trigger] self.server.players@[k],
                                        prompt_lines(ps, idx as int, old(st).prompted).push(fl),
                                    ) by {
                                        crate::player::lemma_told_still(
                                            ps[k],
                                            a2[k],
                                            a3[k],
                                            prompt_lines(ps, idx as int, old(st).prompted),
                                        );
                                        crate::player::lemma_told_snoc(
                                            ps[k],
                                            a3[k],
                                            self.server.players@[k],
                                            prompt_lines(ps, idx as int, old(st).prompted),
                                            fl,
                                        );
                                    }
                                    assert(prompt_lines(ps, idx as int, old(st).prompted).push(fl)
                                        =~~= prompt_lines(ps, idx as int, old(st).prompted)
                                        + seq![fl]);
                                }
                                proof {
                                    let n0 = ps.len() as int;
                                    let base = old(st).pos as int % n0;
                                    assert(first_active_at(ps, base, idx as int));
                                    assert forall|j: int|
                                        #[trigger] first_active_at(ps, base, j) implies j
                                        == idx as int by {
                                        lemma_first_active_unique(ps, base, j, idx as int);
                                    }
                                    assert(({
                                        let m = self.server.players@[idx as int].model();
                                        let o = ps[idx as int].model();
                                        m.fold == true && m.money == o.money && m.bet == o.bet
                                            && m.name == o.name && m.cards == o.cards && m.dead
                                            == o.dead
                                    }));
                                    assert(bet_step_transition(
                                        *old(self),
                                        *self,
                                        old(st).pos as int,
                                        old(st).prompted,
                                        BetStep::Acted,
                                    ));
                                }
                                BetStep::Acted
                            },
                            _ => {
                                proof {
                                    assert forall|k: int|
                                        0 <= k < ps.len() implies crate::player::seat_told(
                                        ps[k],
                                        #[trigger] self.server.players@[k],
                                        prompt_lines(ps, idx as int, old(st).prompted)
                                            + Seq::empty(),
                                    ) by {
                                        assert(self.server.players@[k] == a2[k]);
                                        assert(prompt_lines(ps, idx as int, old(st).prompted)
                                            + Seq::<Seq<char>>::empty() =~~= prompt_lines(
                                            ps,
                                            idx as int,
                                            old(st).prompted,
                                        ));
                                    }
                                    let n0 = ps.len() as int;
                                    let base = old(st).pos as int % n0;
                                    assert(first_active_at(ps, base, idx as int));
                                    assert forall|j: int|
                                        #[trigger] first_active_at(ps, base, j) implies j
                                        == idx as int by {
                                        lemma_first_active_unique(ps, base, j, idx as int);
                                    }
                                    assert forall|k: int|
                                        0 <= k < n0 implies (
                                    #[trigger] self.server.players@[k]).model()
                                        == ps[k].model() by {}
                                    assert(bet_step_transition(
                                        *old(self),
                                        *self,
                                        old(st).pos as int,
                                        old(st).prompted,
                                        BetStep::Acted,
                                    ));
                                }
                                BetStep::Acted
                            },
                        }
                    },
                }
            },
        }
    }

    /// The showdown: sums every wager into the pot, classifies every
    /// non-folded participant's cards against the community cards, whittles
    /// the candidate winners down by popping the strongest remaining hands,
    /// splits the pot evenly among the final winners — an all-in winner is
    /// capped at its own wager times the seat count, a cap read as applying
    /// to every winner, the last participant standing included — and
    /// broadcasts the payouts and everyone's hole cards. All chips on the
    /// table are conserved, folded participants gain nothing, every wager
    /// is consumed into the accounting, each winner's exact payout is
    /// stated, and every paid seat owns a hand tying the strongest
    /// (category, top card) class of the merged non-folded catalogue —
    /// unless no comparison was possible (one candidate, or a catalogue of
    /// one class throughout, where everyone still standing splits).
    #[verifier::rlimit(60)]
    pub fn finalize(&mut self)
        requires
            table_wf(*old(self)),
            forall|i: int|
                0 <= i < old(self).server.players@.len() ==> (#[trigger] old(
                    self,
                ).server.players@[i]).model().cards is Some,
            old(self).shared@.len() == 5,
            forall|k: int| 0 <= k < 5 ==> valid_card(#[trigger] old(self).shared@[k]),
        ensures
            table_wf(*final(self)),
            total_chips(*final(self)) == total_chips(*old(self)),
            forall|k: int|
                0 <= k < old(self).server.players@.len() ==> {
                    let m = (#[trigger] final(self).server.players@[k]).model();
                    let o = old(self).server.players@[k].model();
                    m.name == o.name && m.cards == o.cards && m.dead == o.dead && m.fold == o.fold
                        && m.bet == 0
                },
            forall|k: int|
                0 <= k < old(self).server.players@.len() && old(
                    self,
                ).server.players@[k].model().fold ==> (
                #[trigger] final(self).server.players@[k]).model().money == old(
                    self,
                ).server.players@[k].model().money,
            final(self).players == old(self).players,
            final(self).dealer == old(self).dealer,
            final(self).shared == old(self).shared,
            final(self).shared_visible == old(self).shared_visible,
            final(self).max_bet == old(self).max_bet,
            ({
                let ps0 = old(self).server.players@;
                let n0 = ps0.len() as int;
                let pot = old(self).bank + seats_bets(ps0);
                let sh = old(self).shared@;
                exists|w: Seq<int>, cat: Seq<Hand>, toks: Seq<Seq<char>>|
                    #![trigger w.len(), cat.len(), toks.len()]
                    {
                        &&& (forall|j: int|
                            0 <= j < w.len() ==> 0 <= #[trigger] w[j] < n0
                                && !ps0[w[j]].model().fold)
                        &&& (forall|j1: int, j2: int| 0 <= j1 < j2 < w.len() ==> w[j1] < w[j2])
                        &&& (forall|k: int|
                            0 <= k < n0 && !w.contains(k) ==> (
                            #[trigger] final(self).server.players@[k]).model().money
                                == ps0[k].model().money)
                        &&& (forall|j: int|
                            0 <= j < w.len() ==> (
                            #[trigger] final(self).server.players@[w[j]]).model().money
                                == ps0[w[j]].model().money + payout_of(
                                ps0[w[j]].model(),
                                pot / (if w.len() > 0 {
                                    w.len() as int
                                } else {
                                    1
                                }),
                                old(self).players as int,
                            ))
                        &&& (forall|t: int|
                            0 <= t < cat.len() ==> ({
                                let h = #[trigger] cat[t];
                                0 <= h.player < n0 && !ps0[h.player as int].model().fold
                                    && crate::hand::hand_sound(
                                    h,
                                    seat_cards(ps0[h.player as int].model(), sh),
                                )
                            }))
                        &&& (forall|t1: int, t2: int|
                            0 <= t1 <= t2 < cat.len() ==> crate::hand::class_le(cat[t1], cat[t2]))
                        &&& (forall|k: int|
                            0 <= k < n0 && !(#[trigger] ps0[k]).model().fold
                                ==> crate::classify::catalogue_complete_for(
                                cat,
                                seat_cards(ps0[k].model(), sh),
                            ))
                        &&& (nonfolded_count(ps0) <= 1 || (w.len() == nonfolded_count(ps0) && (
                        forall|t1: int, t2: int|
                            0 <= t1 < cat.len() && 0 <= t2 < cat.len()
                                ==> crate::hand::hand_eq_spec(
                                #[trigger] cat[t1],
                                #[trigger] cat[t2],
                            ))) || (forall|j: int|
                            0 <= j < w.len() ==> ties_strongest(cat, #[trigger] w[j])))
                        &&& toks.len() == w.len()
                        &&& (forall|k: int|
                            0 <= k < n0 ==> crate::player::seat_told(
                                ps0[k],
                                #[trigger] final(self).server.players@[k],
                                (Seq::new(
                                    w.len(),
                                    |q: int| won_line(
                                        ps0[w[q]].model(),
                                        pot / (if w.len() > 0 {
                                            w.len() as int
                                        } else {
                                            1
                                        }),
                                        old(self).players as int,
                                        toks[q],
                                    ),
                                ) + Seq::new(n0 as nat, |q: int| endcards_line(ps0[q].model()))).reverse(),
                            ))
                    }
            }),
            ({
                let ps0 = old(self).server.players@;
                let pot = old(self).bank + seats_bets(ps0);
                nonfolded_count(ps0) == 1 ==> forall|w: int|
                    0 <= w < ps0.len() && !(#[trigger] ps0[w]).model().fold && !(
                    ps0[w].model().money == 0 && pot > ps0[w].model().bet * (
                    old(self).players as int)) ==> final(self).server.players@[w].model().money
                        == ps0[w].model().money + pot && final(self).bank == 0
            }),
    {
        let ghost b0 = self.server.players@;
        let ghost t0 = total_chips(*old(self));
        let n = self.server.players.len();
        proof {
            assert(b0.take(0) =~= Seq::<Seat>::empty());
            assert forall|i: int| 0 <= i < b0.len() implies (#[trigger] b0[i]).model().bet >= 0 by {}
            lemma_bets_nonneg_only(b0);
        }
        // sum every wager into the pot (wagers are consumed at the end)
        let mut i: usize = 0;
        while i < n
            invariant
                seats_ok(*self),
                t0 <= 0x7fff_ffff,
                t0 == seats_money(b0) + seats_bets(b0) + old(self).bank,
                old(self).bank >= 0,
                self.server.players@ == b0,
                n == b0.len(),
                i <= n,
                self.shared == old(self).shared,
                self.shared_visible == old(self).shared_visible,
                self.max_bet == old(self).max_bet,
                self.dealer == old(self).dealer,
                self.players == old(self).players,
                self.bank as int == old(self).bank + seats_bets(b0.take(i as int)),
                0 <= seats_bets(b0.take(i as int)) <= seats_bets(b0),
            decreases n - i,
        {
            proof {
                lemma_bets_take_step(b0, i as int);
                lemma_sums_bound(b0, i as int);
                lemma_sums_nonneg(b0);
                lemma_bets_prefix_bound(b0, i as int);
            }
            let b = self.server.players[i].get_bet();
            self.bank = self.bank + b;
            i += 1;
        }
        proof {
            assert(b0.take(n as int) =~= b0);
        }
        // classify every non-folded participant's cards against the
        // community cards
        let ghost sh0 = self.shared@;
        let mut hands: Vec<Hand> = Vec::new();
        let mut i: usize = 0;
        while i < n
            invariant
                seats_ok(*self),
                self.server.players@ == b0,
                n == b0.len(),
                i <= n,
                self.shared@.len() == 5,
                sh0 == self.shared@,
                forall|k: int| 0 <= k < 5 ==> valid_card(#[trigger] self.shared@[k]),
                forall|k: int| 0 <= k < b0.len() ==> (#[trigger] b0[k]).model().cards is Some,
                forall|t: int|
                    0 <= t < hands@.len() ==> ({
                        let h = #[trigger] hands@[t];
                        0 <= h.player < n && !b0[h.player as int].model().fold && crate::hand::hand_sound(
                            h,
                            seat_cards(b0[h.player as int].model(), sh0),
                        )
                    }),
                forall|k: int|
                    0 <= k < i && !(#[trigger] b0[k]).model().fold
                        ==> crate::classify::catalogue_complete_for(
                        hands@,
                        seat_cards(b0[k].model(), sh0),
                    ),
            decreases n - i,
        {
            if self.server.players[i].get_fold() {
                i += 1;
                continue ;
            }
            let hc = self.server.players[i].get_cards();
            let mut cs: Vec<Card> = Vec::new();
            cs.push(hc[0]);
            cs.push(hc[1]);
            let mut j: usize = 0;
            while j < 5
                invariant
                    j <= 5,
                    self.shared@.len() == 5,
                    forall|k: int| 0 <= k < 5 ==> valid_card(#[trigger] self.shared@[k]),
                    cs@.len() == 2 + j,
                    cs@[0] == hc[0],
                    cs@[1] == hc[1],
                    forall|k: int| 2 <= k < cs@.len() ==> (#[trigger] cs@[k]) == self.shared@[k - 2],
                decreases 5 - j,
            {
                cs.push(self.shared[j]);
                j += 1;
            }
            proof {
                assert(b0[i as int].wf());
                assert(valid_card(hc[0]) && valid_card(hc[1])) by {
                    match b0[i as int] {
                        Seat::Human(h) => {
                            assert(h.model().cards == Some(hc));
                        },
                        Seat::Bot(b) => {
                            assert(b.model().cards == Some(hc));
                        },
                    }
                }
                assert forall|k: int| 0 <= k < cs@.len() implies valid_card(#[trigger] cs@[k]) by {
                    if k >= 2 {
                        assert(cs@[k] == self.shared@[k - 2]);
                    }
                }
            }
            proof {
                assert(cs@ =~= seat_cards(b0[i as int].model(), sh0));
            }
            let mut ph = Hand::find_all(i, cs.as_slice());
            let ghost hpre = hands@;
            let ghost phv = ph@;
            hands.append(&mut ph);
            proof {
                // the merged catalogue keeps what it had and gains this
                // seat's sound, complete catalogue
                assert(hpre.is_prefix_of(hands@)) by {
                    assert(hands@.subrange(0, hpre.len() as int) =~= hpre);
                }
                assert forall|t: int|
                    0 <= t < hands@.len() implies ({
                    let h = #[trigger] hands@[t];
                    0 <= h.player < n && !b0[h.player as int].model().fold
                        && crate::hand::hand_sound(h, seat_cards(b0[h.player as int].model(), sh0))
                }) by {
                    if t < hpre.len() {
                        assert(hands@[t] == hpre[t]);
                    } else {
                        assert(hands@[t] == phv[t - hpre.len()]);
                        assert(phv[t - hpre.len()].player == i);
                        assert(crate::hand::hand_sound(phv[t - hpre.len()], cs@));
                    }
                }
                assert forall|k: int|
                    0 <= k < i + 1 && !(#[trigger] b0[k]).model().fold
                    implies crate::classify::catalogue_complete_for(
                    hands@,
                    seat_cards(b0[k].model(), sh0),
                ) by {
                    if k < i {
                        crate::classify::lemma_complete_for_carries(
                            hpre,
                            hands@,
                            0,
                            seat_cards(b0[k].model(), sh0),
                        );
                    } else {
                        assert(crate::classify::catalogue_extends(phv, hands@, 3)) by {
                            assert forall|q: int| 0 <= q < phv.len() implies hands@.contains(
                                #[trigger] phv[q],
                            ) by {
                                assert(hands@[hpre.len() + q] == phv[q]);
                            }
                        }
                        crate::classify::lemma_complete_for_carries(phv, hands@, 3, cs@);
                    }
                }
            }
            i += 1;
        }
        let ghost merged = hands@;
        let mut hands = crate::hand::sort_hands(hands);
        let ghost cat0 = hands@;
        proof {
            // the sorted catalogue keeps soundness, completeness, and is
            // ordered by hand class
            let ghost p = |h: Hand| 0 <= h.player < n && !b0[h.player as int].model().fold
                && crate::hand::hand_sound(h, seat_cards(b0[h.player as int].model(), sh0));
            assert forall|t: int| 0 <= t < merged.len() implies #[trigger] p(merged[t]) by {
                assert(0 <= merged[t].player < n && !b0[merged[t].player as int].model().fold
                    && crate::hand::hand_sound(
                    merged[t],
                    seat_cards(b0[merged[t].player as int].model(), sh0),
                ));
            }
            crate::seq_util::lemma_multiset_all(merged, cat0, p);
            assert forall|t: int|
                0 <= t < cat0.len() implies ({
                let h = #[trigger] cat0[t];
                0 <= h.player < n && !b0[h.player as int].model().fold
                    && crate::hand::hand_sound(h, seat_cards(b0[h.player as int].model(), sh0))
            }) by {
                assert(p(cat0[t]));
            }
            assert forall|k: int|
                0 <= k < n && !(#[trigger] b0[k]).model().fold
                implies crate::classify::catalogue_complete_for(
                cat0,
                seat_cards(b0[k].model(), sh0),
            ) by {
                crate::classify::lemma_complete_for_carries(
                    merged,
                    cat0,
                    1,
                    seat_cards(b0[k].model(), sh0),
                );
            }
        }
        // the non-folded participants are the candidate winners
        let mut winners: Vec<usize> = Vec::new();
        let mut i: usize = 0;
        proof {
            assert(b0.take(0) =~= Seq::<Seat>::empty());
        }
        while i < n
            invariant
                self.server.players@ == b0,
                n == b0.len(),
                i <= n,
                winners@.len() <= i,
                winners@.len() == nonfolded_count(b0.take(i as int)),
                forall|k: int|
                    0 <= k < winners@.len() ==> (#[trigger] winners@[k]) < n && !b0[winners@[k] as int].model().fold,
                forall|k: int| 0 <= k < winners@.len() ==> (#[trigger] winners@[k]) < i,
                forall|j1: int, j2: int|
                    0 <= j1 < j2 < winners@.len() ==> winners@[j1] < winners@[j2],
            decreases n - i,
        {
            proof {
                lemma_nonfolded_take_step(b0, i as int);
            }
            if !self.server.players[i].get_fold() {
                winners.push(i);
            }
            i += 1;
        }
        proof {
            assert(b0.take(n as int) =~= b0);
        }
        // whittle the winners down from the strongest hand
        let ghost wfull = winners@;
        let ghost refined: bool = false;
        let mut best: Vec<Hand> = Vec::new();
        while winners.len() > 1 && hands.len() > 0
            invariant
                self.server.players@ == b0,
                n == b0.len(),
                winners@.len() <= n,
                wfull.len() == nonfolded_count(b0),
                nonfolded_count(b0) == 1 ==> winners@ == wfull,
                forall|k: int|
                    0 <= k < winners@.len() ==> (#[trigger] winners@[k]) < n && !b0[winners@[k] as int].model().fold,
                forall|j1: int, j2: int|
                    0 <= j1 < j2 < winners@.len() ==> winners@[j1] < winners@[j2],
                !refined ==> winners@ == wfull,
                !refined ==> hands@ == cat0.take(hands@.len() as int) && best@.len()
                    + hands@.len() == cat0.len(),
                !refined ==> forall|u: int|
                    0 <= u < best@.len() ==> (#[trigger] best@[u]) == cat0[cat0.len() - 1 - u]
                        && crate::hand::hand_eq_spec(best@[u], cat0[cat0.len() - 1]),
                refined ==> forall|j: int|
                    0 <= j < winners@.len() ==> ties_strongest(
                        cat0,
                        (#[trigger] winners@[j]) as int,
                    ),
            decreases hands@.len(),
        {
            let ghost hands_pre = hands@;
            let ghost best_pre = best@;
            let hand = hands.pop().unwrap();
            proof {
                if !refined {
                    assert(hand == cat0[hands_pre.len() - 1]);
                    assert(hands@ =~= cat0.take(hands@.len() as int));
                }
            }
            let keep = best.len() == 0 || crate::hand::hand_eq_exec(&best[0], &hand);
            if keep {
                best.push(hand);
                proof {
                    if !refined {
                        assert forall|u: int|
                            0 <= u < best@.len() implies (#[trigger] best@[u]) == cat0[cat0.len()
                            - 1 - u] && crate::hand::hand_eq_spec(best@[u], cat0[cat0.len() - 1]) by {
                            if u < best_pre.len() {
                                assert(best@[u] == best_pre[u]);
                            } else {
                                assert(best@[u] == cat0[hands_pre.len() - 1]);
                                assert(hands_pre.len() - 1 == cat0.len() - 1 - u);
                                if best_pre.len() > 0 {
                                    assert(crate::hand::hand_eq_spec(best_pre[0], best@[u]));
                                    assert(crate::hand::hand_eq_spec(
                                        best_pre[0],
                                        cat0[cat0.len() - 1],
                                    ));
                                }
                            }
                        }
                    }
                }
            } else {
                // the previous best set's distinct owners are confirmed
                let mut owners: Vec<usize> = Vec::new();
                let mut t: usize = 0;
                while t < best.len()
                    invariant
                        t <= best@.len(),
                        forall|u: int|
                            0 <= u < owners@.len() ==> exists|v: int|
                                0 <= v < best@.len() && (#[trigger] best@[v]).player == (
                                #[trigger] owners@[u]),
                    decreases best@.len() - t,
                {
                    let pl = best[t].player;
                    let mut seen = false;
                    let mut u: usize = 0;
                    while u < owners.len()
                        invariant
                            u <= owners@.len(),
                        decreases owners@.len() - u,
                    {
                        if owners[u] == pl {
                            seen = true;
                        }
                        u += 1;
                    }
                    if !seen {
                        proof {
                            assert((#[trigger] best@[t as int]).player == pl);
                        }
                        owners.push(pl);
                    }
                    t += 1;
                }
                // winners keep only the confirmed owners
                let ghost wpre = winners@;
                let mut kept: Vec<usize> = Vec::new();
                let ghost kept_src: Seq<int> = Seq::empty();
                let ghost kept_ou: Seq<int> = Seq::empty();
                let mut t: usize = 0;
                while t < winners.len()
                    invariant
                        t <= winners@.len(),
                        winners@ == wpre,
                        forall|k: int|
                            0 <= k < winners@.len() ==> (#[trigger] winners@[k]) < n && !b0[winners@[k] as int].model().fold,
                        forall|j1: int, j2: int|
                            0 <= j1 < j2 < winners@.len() ==> winners@[j1] < winners@[j2],
                        kept@.len() <= t,
                        kept@.len() == kept_src.len(),
                        kept@.len() == kept_ou.len(),
                        forall|j: int|
                            0 <= j < kept@.len() ==> 0 <= #[trigger] kept_src[j] < wpre.len()
                                && kept@[j] == wpre[kept_src[j]],
                        forall|j: int|
                            0 <= j < kept@.len() ==> 0 <= #[trigger] kept_ou[j] < owners@.len()
                                && kept@[j] == owners@[kept_ou[j]],
                        forall|k: int|
                            0 <= k < kept@.len() ==> (#[trigger] kept@[k]) < n && !b0[kept@[k] as int].model().fold,
                        forall|k: int|
                            0 <= k < kept@.len() && t < winners@.len() ==> (#[trigger] kept@[k])
                                < winners@[t as int],
                        forall|j1: int, j2: int|
                            0 <= j1 < j2 < kept@.len() ==> kept@[j1] < kept@[j2],
                    decreases winners@.len() - t,
                {
                    let w = winners[t];
                    let mut seen = false;
                    let mut hit: usize = 0;
                    let mut u: usize = 0;
                    while u < owners.len()
                        invariant
                            u <= owners@.len(),
                            seen ==> hit < owners@.len() && owners@[hit as int] == w,
                        decreases owners@.len() - u,
                    {
                        if owners[u] == w {
                            seen = true;
                            hit = u;
                        }
                        u += 1;
                    }
                    if seen {
                        kept.push(w);
                        proof {
                            kept_src = kept_src.push(t as int);
                            kept_ou = kept_ou.push(hit as int);
                        }
                    }
                    t += 1;
                }
                proof {
                    if !refined {
                        // each surviving winner owns a hand tying the
                        // strongest class
                        assert forall|j: int| 0 <= j < kept@.len() implies ties_strongest(
                            cat0,
                            (#[trigger] kept@[j]) as int,
                        ) by {
                            let u = kept_ou[j];
                            assert(kept@[j] == owners@[u]);
                            let v = choose|v: int|
                                0 <= v < best@.len() && (#[trigger] best@[v]).player == (
                                #[trigger] owners@[u]);
                            assert(best@[v] == cat0[cat0.len() - 1 - v]);
                            assert((#[trigger] cat0[cat0.len() - 1 - v]).player == kept@[j]);
                        }
                    } else {
                        assert forall|j: int| 0 <= j < kept@.len() implies ties_strongest(
                            cat0,
                            (#[trigger] kept@[j]) as int,
                        ) by {
                            assert(kept@[j] == wpre[kept_src[j]]);
                            assert(ties_strongest(cat0, wpre[kept_src[j]] as int));
                        }
                    }
                    refined = true;
                }
                winners = kept;
                // the catalogue keeps only the confirmed owners' hands
                let mut kept_hands: Vec<Hand> = Vec::new();
                let ghost hpre2 = hands@;
                while hands.len() > 0
                    invariant
                        kept_hands@.len() + hands@.len() <= hpre2.len(),
                    decreases hands@.len(),
                {
                    let h = hands.pop().unwrap();
                    let pl = h.player;
                    let mut seen = false;
                    let mut u: usize = 0;
                    while u < winners.len()
                        invariant
                            u <= winners@.len(),
                        decreases winners@.len() - u,
                    {
                        if winners[u] == pl {
                            seen = true;
                        }
                        u += 1;
                    }
                    if seen {
                        kept_hands.push(h);
                    }
                }
                // restore the catalogue's ascending order
                let mut t: usize = kept_hands.len();
                while t > 0
                    invariant
                        t <= kept_hands@.len(),
                        hands@.len() == kept_hands@.len() - t,
                    decreases t,
                {
                    t -= 1;
                    hands.push(kept_hands[t].clone());
                }
                if winners.len() > 1 {
                    best.clear();
                    best.push(hand);
                }
            }
        }
        proof {
            // how the loop left the winner set: untouched (at most one
            // candidate, or every catalogue hand one class), or narrowed
            // to owners of hands tying the strongest class
            if !refined {
                assert(winners@ == wfull);
                if !(winners@.len() <= 1) {
                    // exhausted the catalogue while every hand tied
                    assert(hands@.len() == 0);
                    assert(best@.len() == cat0.len());
                    assert forall|t1: int, t2: int|
                        0 <= t1 < cat0.len() && 0 <= t2 < cat0.len() implies crate::hand::hand_eq_spec(
                        #[trigger] cat0[t1],
                        #[trigger] cat0[t2],
                    ) by {
                        assert(best@[cat0.len() - 1 - t1] == cat0[t1]);
                        assert(best@[cat0.len() - 1 - t2] == cat0[t2]);
                        assert(crate::hand::hand_eq_spec(cat0[t1], cat0[cat0.len() - 1]));
                        assert(crate::hand::hand_eq_spec(cat0[t2], cat0[cat0.len() - 1]));
                    }
                }
            }
        }
        let ghost final_winners_tied: bool = refined;
        // split the pot among the final winners
        let w_count = winners.len();
        let per_player: i32 = if w_count > 0 {
            proof {
                vstd::arithmetic::div_mod::lemma_fundamental_div_mod(
                    self.bank as int,
                    w_count as int,
                );
            }
            self.bank / (w_count as i32)
        } else {
            0
        };
        let ghost m1 = seats_money(self.server.players@);
        let ghost k1 = self.bank as int;
        let mut payout_msgs: Vec<String> = Vec::new();
        let ghost toks: Seq<Seq<char>> = Seq::empty();
        let mut j: usize = 0;
        while j < w_count
            invariant
                toks.len() == j,
                payout_msgs@.len() == j,
                forall|q: int|
                    0 <= q < j ==> (#[trigger] payout_msgs@[q])@ == crate::text::join_sp(
                        seq![
                            "WON"@,
                            b0[winners@[q] as int].model().name.unwrap(),
                            crate::text::int_dec(
                                payout_of(
                                    b0[winners@[q] as int].model(),
                                    per_player as int,
                                    self.players as int,
                                ),
                            ),
                            toks[q],
                        ],
                    ),
                forall|k: int|
                    0 <= k < n ==> (#[trigger] self.server.players@[k]).owed() == b0[k].owed()
                        && self.server.players@[k].queued() == b0[k].queued()
                        && self.server.players@[k].watch() == b0[k].watch() && ((
                    self.server.players@[k]) is Human <==> (b0[k]) is Human),
                seats_ok(*self),
                m1 + k1 <= 0x7fff_ffff,
                k1 >= 0,
                self.bank as int <= k1,
                n == self.server.players@.len(),
                n == b0.len(),
                w_count == winners@.len(),
                j <= w_count,
                per_player >= 0,
                per_player as int == (if w_count > 0 {
                    k1 / (w_count as int)
                } else {
                    0
                }),
                wfull.len() == nonfolded_count(b0),
                nonfolded_count(b0) == 1 ==> w_count == 1 && winners@ == wfull,
                forall|k: int|
                    0 <= k < winners@.len() ==> (#[trigger] winners@[k]) < n && !b0[winners@[k] as int].model().fold,
                forall|j1: int, j2: int|
                    0 <= j1 < j2 < winners@.len() ==> winners@[j1] < winners@[j2],
                forall|k: int|
                    0 <= k < n && !winners@.contains(k as usize) ==> (
                    #[trigger] self.server.players@[k]).model().money == b0[k].model().money,
                forall|t: int|
                    0 <= t < winners@.len() ==> ({
                        let wt = (#[trigger] winners@[t]) as int;
                        &&& (t < j ==> self.server.players@[wt].model().money
                            == b0[wt].model().money + payout_of(
                            b0[wt].model(),
                            per_player as int,
                            self.players as int,
                        ))
                        &&& (t >= j ==> self.server.players@[wt].model().money
                            == b0[wt].model().money)
                    }),
                ({
                    let sw = winners@[0] as int;
                    nonfolded_count(b0) == 1 && !(b0[sw].model().money == 0 && k1
                        > b0[sw].model().bet * (self.players as int)) ==> ((j == 0
                        ==> self.bank as int == k1 && self.server.players@[sw].model().money
                        == b0[sw].model().money) && (j == 1 ==> self.bank == 0
                        && self.server.players@[sw].model().money == b0[sw].model().money + k1))
                }),
                self.bank as int >= (w_count - j) * per_player as int,
                seats_money(self.server.players@) + self.bank as int == m1 + k1,
                forall|k: int|
                    0 <= k < n ==> {
                        let m = (#[trigger] self.server.players@[k]).model();
                        let o = b0[k].model();
                        m.name == o.name && m.cards == o.cards && m.dead == o.dead && m.fold
                            == o.fold && m.bet == o.bet && (o.fold ==> m.money == o.money)
                    },
                self.shared == old(self).shared,
                self.shared_visible == old(self).shared_visible,
                self.max_bet == old(self).max_bet,
                self.dealer == old(self).dealer,
                self.players == old(self).players,
            decreases w_count - j,
        {
            let w = winners[j];
            let ghost pre = self.server.players@;
            proof {
                lemma_sums_bound(pre, w as int);
                assert(winners@.contains(winners@[j as int]));
                assert(self.server.players@[w as int].model().money == b0[w as int].model().money);
            }
            let player_money = self.server.players[w].get_money();
            let player_bet = self.server.players[w].get_bet();
            let allin = self.server.players[w].is_allin();
            proof {
                assert(0 <= player_bet as int * (self.players as int) <= 0x7fff_ffff * 0x7fff_ffff)
                    by (nonlinear_arith)
                    requires
                        0 <= player_bet <= 0x7fff_ffff,
                        1 <= self.players <= 0x7fff_ffff,
                ;
            }
            let cap64: i64 = (player_bet as i64) * (self.players as i64);
            let pay: i32 = if allin && (per_player as i64) > cap64 {
                cap64 as i32
            } else {
                per_player
            };
            proof {
                assert(pay as int == payout_of(
                    b0[w as int].model(),
                    per_player as int,
                    self.players as int,
                ));
                assert((w_count - j) * per_player as int == (w_count - j - 1) * per_player as int
                    + per_player as int) by (nonlinear_arith);
                assert((w_count - j - 1) * per_player as int >= 0) by (nonlinear_arith)
                    requires
                        w_count - j - 1 >= 0,
                        per_player >= 0,
                ;
                lemma_sums_nonneg(self.server.players@);
            }
            self.bank = self.bank - pay;
            {
                let p = self.server.seat_mut(w);
                let cur = p.get_money();
                p.set_money(cur + pay);
            }
            proof {
                lemma_sums_update(pre, w as int, self.server.players@[w as int]);
                assert forall|k: int|
                    0 <= k < n implies ({
                    let m = (#[trigger] self.server.players@[k]).model();
                    let o = b0[k].model();
                    &&& m.name == o.name
                    &&& m.cards == o.cards
                    &&& m.dead == o.dead
                    &&& m.fold == o.fold
                    &&& m.bet == o.bet
                    &&& (o.fold ==> m.money == o.money)
                    &&& m.money >= 0
                    &&& m.bet >= 0
                    &&& m.name is Some
                    &&& self.server.players@[k].wf()
                }) by {
                    if k != w {
                        assert(self.server.players@[k] == pre[k]);
                    }
                }
                assert forall|k: int|
                    0 <= k < n && !winners@.contains(k as usize) implies (
                #[trigger] self.server.players@[k]).model().money == b0[k].model().money by {
                    if k != w {
                        assert(self.server.players@[k] == pre[k]);
                    }
                }
                assert forall|t: int|
                    0 <= t < winners@.len() && t != j implies winners@[t] != winners@[j as int] by {
                    if t < j {
                        assert(winners@[t] < winners@[j as int]);
                    } else {
                        assert(winners@[j as int] < winners@[t]);
                    }
                }
                if nonfolded_count(b0) == 1 && !(b0[winners@[0] as int].model().money == 0 && k1
                    > b0[winners@[0] as int].model().bet * (self.players as int)) {
                    vstd::arithmetic::div_mod::lemma_div_basics(k1);
                    assert(w_count == 1);
                    assert(per_player as int == k1 / 1);
                    assert(per_player as int == k1);
                    assert(w as int == winners@[0] as int);
                    assert(pay as int == k1);
                }
            }
            // announce the payout, with the winning category or as the
            // last participant standing
            let name = match self.server.players[w].get_name() {
                Some(nm) => nm,
                None => String::new(),
            };
            let mut found: Option<HandType> = None;
            let mut t: usize = 0;
            while t < best.len()
                invariant
                    t <= best@.len(),
                decreases best@.len() - t,
            {
                if found.is_none() && best[t].player == w {
                    found = Some(best[t].hand_type);
                }
                t += 1;
            }
            let mut args: Vec<String> = Vec::new();
            args.push(name);
            args.push(crate::text::i32_dec_str(pay));
            match found {
                Some(ht) => args.push(hand_type_name(ht)),
                None => args.push(String::from_str("last_standing")),
            }
            proof {
                toks = toks.push(args@[2]@);
                assert(seq!["WON"@] + crate::text::token_views(args@) =~~= seq![
                    "WON"@,
                    b0[w as int].model().name.unwrap(),
                    crate::text::int_dec(
                        payout_of(b0[w as int].model(), per_player as int, self.players as int),
                    ),
                    toks[j as int],
                ]);
            }
            payout_msgs.push(compose_line("WON", args));
            j += 1;
        }
        // reveal everyone's hole cards
        let ghost w_cnt = payout_msgs@.len() as int;
        let ghost pm0 = payout_msgs@;
        let mut i: usize = 0;
        while i < n
            invariant
                n == self.server.players@.len(),
                n == b0.len(),
                i <= n,
                0 <= w_cnt,
                w_cnt == pm0.len(),
                payout_msgs@.len() == w_cnt + i,
                forall|q: int| 0 <= q < w_cnt ==> (#[trigger] payout_msgs@[q]) == pm0[q],
                forall|q: int|
                    0 <= q < i ==> ((#[trigger] b0[q]).model().cards matches Some(c)
                        && payout_msgs@[w_cnt + q]@ == crate::text::join_sp(
                        seq![
                            "ENDCARDS"@,
                            b0[q].model().name.unwrap(),
                            seq![c[0].fig, c[0].col],
                            seq![c[1].fig, c[1].col],
                        ],
                    )),
                forall|k: int|
                    0 <= k < n ==> {
                        let m = (#[trigger] self.server.players@[k]).model();
                        let o = b0[k].model();
                        m.name == o.name && m.cards == o.cards
                    },
                forall|k: int|
                    0 <= k < n ==> (#[trigger] self.server.players@[k]).model().cards is Some
                        && self.server.players@[k].model().name is Some,
            decreases n - i,
        {
            let name = match self.server.players[i].get_name() {
                Some(nm) => nm,
                None => String::new(),
            };
            let hc = self.server.players[i].get_cards();
            let mut args: Vec<String> = Vec::new();
            args.push(name);
            args.push(hc[0].code());
            args.push(hc[1].code());
            proof {
                assert(b0[i as int].model().cards == Some(hc));
                assert(seq!["ENDCARDS"@] + crate::text::token_views(args@) =~~= seq![
                    "ENDCARDS"@,
                    b0[i as int].model().name.unwrap(),
                    seq![hc[0].fig, hc[0].col],
                    seq![hc[1].fig, hc[1].col],
                ]);
            }
            let ec_line = compose_line("ENDCARDS", args);
            proof {
                assert(ec_line@ == crate::text::join_sp(
                    seq![
                        "ENDCARDS"@,
                        b0[i as int].model().name.unwrap(),
                        seq![hc[0].fig, hc[0].col],
                        seq![hc[1].fig, hc[1].col],
                    ],
                ));
            }
            let ghost pm_pre = payout_msgs@;
            payout_msgs.push(ec_line);
            proof {
                assert forall|q: int|
                    0 <= q < i + 1 implies ((#[trigger] b0[q]).model().cards matches Some(c)
                    && payout_msgs@[w_cnt + q]@ == crate::text::join_sp(
                    seq![
                        "ENDCARDS"@,
                        b0[q].model().name.unwrap(),
                        seq![c[0].fig, c[0].col],
                        seq![c[1].fig, c[1].col],
                    ],
                )) by {
                    if q < i {
                        assert(payout_msgs@[w_cnt + q] == pm_pre[w_cnt + q]);
                    } else {
                        assert(payout_msgs@[w_cnt + q] == ec_line);
                    }
                }
                assert forall|q: int| 0 <= q < w_cnt implies (#[trigger] payout_msgs@[q])
                    == pm0[q] by {
                    assert(payout_msgs@[q] == pm_pre[q]);
                }
            }
            i += 1;
        }
        // deliver, newest first
        let ghost b2 = self.server.players@;
        let ghost bank2 = self.bank as int;
        let ghost pmv = Seq::new(payout_msgs@.len(), |q: int| payout_msgs@[q]@);
        let ghost lall = pmv.reverse();
        proof {
            assert(lall.take(pmv.len() - pmv.len()) =~~= Seq::<Seq<char>>::empty());
            assert forall|k: int|
                0 <= k < n implies crate::player::seat_told(
                b0[k],
                #[trigger] self.server.players@[k],
                lall.take(pmv.len() - (payout_msgs@.len() as int)),
            ) by {
                crate::player::lemma_told_zero(b0[k]);
                crate::player::lemma_told_still(
                    b0[k],
                    b0[k],
                    self.server.players@[k],
                    Seq::empty(),
                );
            }
        }
        let mut t: usize = payout_msgs.len();
        while t > 0
            invariant
                pmv.len() == payout_msgs@.len(),
                forall|q: int| 0 <= q < pmv.len() ==> (#[trigger] payout_msgs@[q])@ == pmv[q],
                lall == pmv.reverse(),
                forall|k: int|
                    0 <= k < n ==> crate::player::seat_told(
                        b0[k],
                        #[trigger] self.server.players@[k],
                        lall.take(pmv.len() - t),
                    ),
                seats_ok(*self),
                m1 + k1 <= 0x7fff_ffff,
                t <= payout_msgs@.len(),
                n == self.server.players@.len(),
                self.bank as int == bank2,
                b2.len() == n,
                forall|k: int|
                    0 <= k < n ==> (#[trigger] self.server.players@[k]).model().money
                        == b2[k].model().money,
                seats_money(self.server.players@) + self.bank as int == m1 + k1,
                forall|k: int|
                    0 <= k < n ==> {
                        let m = (#[trigger] self.server.players@[k]).model();
                        let o = b0[k].model();
                        m.name == o.name && m.cards == o.cards && m.dead == o.dead && m.fold
                            == o.fold && m.bet == o.bet && (o.fold ==> m.money == o.money)
                    },
                self.shared == old(self).shared,
                self.shared_visible == old(self).shared_visible,
                self.max_bet == old(self).max_bet,
                self.dealer == old(self).dealer,
                self.players == old(self).players,
            decreases t,
        {
            t -= 1;
            let ghost pre = self.server.players@;
            let line = payout_msgs[t].clone();
            self.server.send_all(line);
            proof {
                lemma_sums_same(pre, self.server.players@);
                assert(pmv.len() > 0);
                assert(lall[pmv.len() - 1 - t] == pmv[t as int]);
                assert forall|k: int|
                    0 <= k < n implies crate::player::seat_told(
                    b0[k],
                    #[trigger] self.server.players@[k],
                    lall.take(pmv.len() - t),
                ) by {
                    assert(crate::player::seat_told(
                        b0[k],
                        pre[k],
                        lall.take(pmv.len() - (t + 1)),
                    ));
                    assert(crate::player::seat_sent(
                        pre[k],
                        self.server.players@[k],
                        lall[pmv.len() - 1 - t],
                    ));
                    crate::player::lemma_told_snoc(
                        b0[k],
                        pre[k],
                        self.server.players@[k],
                        lall.take(pmv.len() - (t + 1)),
                        lall[pmv.len() - 1 - t],
                    );
                    assert(lall.take(pmv.len() - (t + 1)).push(lall[pmv.len() - 1 - t]) =~~= lall.take(
                        pmv.len() - t,
                    ));
                }
            }
        }
        proof {
            assert(lall.take(pmv.len() - 0) =~~= lall);
        }
        // the consumed wagers are reset
        let mut i: usize = 0;
        while i < n
            invariant
                forall|k: int|
                    0 <= k < n ==> crate::player::seat_told(
                        b0[k],
                        #[trigger] self.server.players@[k],
                        lall,
                    ),
                seats_ok(*self),
                m1 + k1 <= 0x7fff_ffff,
                n == self.server.players@.len(),
                i <= n,
                self.bank as int == bank2,
                b2.len() == n,
                forall|k: int|
                    0 <= k < n ==> (#[trigger] self.server.players@[k]).model().money
                        == b2[k].model().money,
                seats_money(self.server.players@) + self.bank as int == m1 + k1,
                forall|k: int|
                    0 <= k < n ==> {
                        let m = (#[trigger] self.server.players@[k]).model();
                        let o = b0[k].model();
                        m.name == o.name && m.cards == o.cards && m.dead == o.dead && m.fold
                            == o.fold && (o.fold ==> m.money == o.money) && (k < i ==> m.bet == 0)
                    },
                self.shared == old(self).shared,
                self.shared_visible == old(self).shared_visible,
                self.max_bet == old(self).max_bet,
                self.dealer == old(self).dealer,
                self.players == old(self).players,
            decreases n - i,
        {
            let ghost pre = self.server.players@;
            {
                let p = self.server.seat_mut(i);
                p.set_bet(0);
            }
            proof {
                lemma_sums_update(pre, i as int, self.server.players@[i as int]);
                assert forall|k: int|
                    0 <= k < n implies ({
                    let m = (#[trigger] self.server.players@[k]).model();
                    let o = b0[k].model();
                    &&& m.name == o.name
                    &&& m.cards == o.cards
                    &&& m.dead == o.dead
                    &&& m.fold == o.fold
                    &&& (o.fold ==> m.money == o.money)
                    &&& m.money == b2[k].model().money
                    &&& (k < i + 1 ==> m.bet == 0)
                    &&& m.money >= 0
                    &&& m.bet >= 0
                    &&& m.name is Some
                    &&& self.server.players@[k].wf()
                }) by {
                    if k != i {
                        assert(self.server.players@[k] == pre[k]);
                    }
                }
                assert forall|k: int|
                    0 <= k < n implies crate::player::seat_told(
                    b0[k],
                    #[trigger] self.server.players@[k],
                    lall,
                ) by {
                    if k != i {
                        assert(self.server.players@[k] == pre[k]);
                    } else {
                        crate::player::lemma_told_still(
                            b0[k],
                            pre[k],
                            self.server.players@[k],
                            lall,
                        );
                    }
                }
            }
            i += 1;
        }
        proof {
            lemma_bets_sum_zero(self.server.players@);
            // the exact payout set: the winners the hand comparison kept
            let wit = Seq::new(wfull.len() * 0 + winners@.len(), |q: int| winners@[q] as int);
            assert(wit.len() == winners@.len());
            assert forall|k: int|
                0 <= k < n && !wit.contains(k) implies (
            #[trigger] self.server.players@[k]).model().money == b0[k].model().money by {
                assert(!winners@.contains(k as usize)) by {
                    if winners@.contains(k as usize) {
                        let q = choose|q: int|
                            0 <= q < winners@.len() && winners@[q] == k as usize;
                        assert(wit[q] == k);
                        assert(wit.contains(k));
                    }
                }
            }
            assert forall|q: int|
                0 <= q < wit.len() implies (
            #[trigger] self.server.players@[wit[q]]).model().money == b0[wit[q]].model().money
                + payout_of(b0[wit[q]].model(), k1 / (if wit.len() > 0 {
                wit.len() as int
            } else {
                1
            }), old(self).players as int) by {
                assert(winners@[q] as int == wit[q]);
            }
            // the winner set either never faced a comparison or ties the
            // strongest class of the sorted non-folded catalogue
            assert(cat0.len() * 0 + cat0.len() == cat0.len());
            if refined {
                assert forall|j: int| 0 <= j < wit.len() implies ties_strongest(
                    cat0,
                    #[trigger] wit[j],
                ) by {
                    assert(wit[j] == winners@[j] as int);
                    assert(ties_strongest(cat0, (winners@[j]) as int));
                }
            } else {
                assert(winners@ == wfull);
                assert(wit.len() == nonfolded_count(b0));
                if wit.len() > 1 {
                    assert(forall|t1: int, t2: int|
                        0 <= t1 < cat0.len() && 0 <= t2 < cat0.len()
                            ==> crate::hand::hand_eq_spec(
                            #[trigger] cat0[t1],
                            #[trigger] cat0[t2],
                        ));
                } else {
                    assert(nonfolded_count(b0) <= 1);
                }
            }
            if nonfolded_count(b0) == 1 {
                let sw = wfull[0] as int;
                assert forall|w: int|
                    0 <= w < b0.len() && !(#[trigger] b0[w]).model().fold && !(b0[w].model().money
                        == 0 && old(self).bank + seats_bets(b0) > b0[w].model().bet * (
                    old(self).players as int)) implies self.server.players@[w].model().money
                    == b0[w].model().money + (old(self).bank + seats_bets(b0)) && self.bank
                    == 0 by {
                    lemma_nonfolded_unique(b0, w, sw);
                }
            }
            // the announced lines: every payout, then every seat's hole
            // cards, delivered newest first
            assert(toks.len() == wit.len());
            let ws = Seq::new(
                wit.len(),
                |q: int| won_line(
                    old(self).server.players@[wit[q]].model(),
                    (old(self).bank + seats_bets(old(self).server.players@)) / (if wit.len() > 0 {
                        wit.len() as int
                    } else {
                        1
                    }),
                    old(self).players as int,
                    toks[q],
                ),
            );
            let es = Seq::new(
                old(self).server.players@.len(),
                |q: int| endcards_line(old(self).server.players@[q].model()),
            );
            assert(pmv.len() == wit.len() + b0.len());
            assert forall|q: int| 0 <= q < pmv.len() implies pmv[q] == (ws + es)[q] by {
                if q < wit.len() {
                    assert(pmv[q] == payout_msgs@[q]@);
                    assert(payout_msgs@[q] == pm0[q]);
                    assert(winners@[q] as int == wit[q]);
                    assert(per_player as int == (old(self).bank + seats_bets(
                        old(self).server.players@,
                    )) / (if wit.len() > 0 {
                        wit.len() as int
                    } else {
                        1
                    }));
                    assert((ws + es)[q] == ws[q]);
                } else {
                    let q2 = q - wit.len();
                    assert(w_cnt == wit.len());
                    assert(b0[q2].model().cards is Some);
                    assert(pmv[q] == payout_msgs@[w_cnt + q2]@);
                    assert((ws + es)[q] == es[q2]);
                }
            }
            assert(pmv =~~= ws + es);
            assert(lall == (ws + es).reverse());
            assert forall|k: int|
                0 <= k < b0.len() implies crate::player::seat_told(
                b0[k],
                #[trigger] self.server.players@[k],
                (Seq::new(
                    wit.len(),
                    |q: int| won_line(
                        old(self).server.players@[wit[q]].model(),
                        (old(self).bank + seats_bets(old(self).server.players@)) / (if wit.len()
                            > 0 {
                            wit.len() as int
                        } else {
                            1
                        }),
                        old(self).players as int,
                        toks[q],
                    ),
                ) + Seq::new(
                    old(self).server.players@.len(),
                    |q: int| endcards_line(old(self).server.players@[q].model()),
                )).reverse(),
            ) by {
                assert(crate::player::seat_told(b0[k], self.server.players@[k], lall));
            }
        }
    }

    /// Whether the match is over: at most one participant still holds
    /// chips on a live connection.
    pub fn end(&self) -> (r: bool)
        ensures
            r == (rich_alive_count(self.server.players@) <= 1),
    {
        let ghost ps = self.server.players@;
        let n = self.server.players.len();
        let mut count: usize = 0;
        let mut k: usize = 0;
        while k < n
            invariant
                n == ps.len(),
                ps == self.server.players@,
                k <= n,
                count <= k,
                count as int == rich_alive_count(ps.take(k as int)),
            decreases n - k,
        {
            proof {
                lemma_counts_take_step(ps, k as int);
            }
            let alive = !self.server.players[k].is_dead();
            let money = self.server.players[k].get_money();
            if money > 0 && alive {
                count = count + 1;
            }
            k += 1;
        }
        proof {
            assert(ps.take(n as int) =~= ps);
        }
        count <= 1
    }
}

} // verus!
