//! The participant capability: what the table asks of every seated
//! participant, network-backed or heuristic-driven, and the seat type that
//! holds either kind.

use vstd::prelude::*;

use crate::bot::Bot;
use crate::card::{valid_card, Card};
use crate::human::HumanSeat;

verus! {

/// The participant state the table reasons about: display name, chip
/// stack, current-street wager, folded flag, hole cards and liveness.
pub struct PlayerModel {
    pub name: Option<Seq<char>>,
    pub cards: Option<[Card; 2]>,
    pub money: int,
    pub bet: int,
    pub fold: bool,
    pub dead: bool,
}

/// One wager request applied to a participant: raise the wager to
/// `amount`, paying the difference from the stack, or clamp to an all-in
/// of the remaining stack when the difference exceeds it.
pub open spec fn wager_clamp(m: PlayerModel, amount: int) -> PlayerModel {
    if amount - m.bet > m.money {
        PlayerModel { money: 0, bet: m.bet + m.money, ..m }
    } else {
        PlayerModel { money: m.money - (amount - m.bet), bet: amount, ..m }
    }
}

/// One broadcast line delivered to one seat: a network participant's
/// outbox grows by exactly this line (its queues otherwise untouched), a
/// heuristic participant applies its watched-state transition; the
/// participant model is unchanged either way.
pub open spec fn seat_sent(s0: Seat, s1: Seat, line: Seq<char>) -> bool {
    match s0 {
        Seat::Human(h) => s1 matches Seat::Human(h2) && h2.model() == h.model() && h2.inbox
            == h.inbox && h2.conn == h.conn && h2.outbox@.len() == h.outbox@.len() + 1
            && h2.outbox@.last()@ == line && (forall|k: int|
            0 <= k < h.outbox@.len() ==> h2.outbox@[k] == h.outbox@[k]),
        Seat::Bot(b) => s1 matches Seat::Bot(b2) && b2.model() == b.model() && b2.shared@
            == crate::bot::watch_shared(b.shared@, line) && b2.max_bet as int
            == crate::bot::watch_ceiling(b.max_bet as int, line),
    }
}

/// The watched state after seeing a whole sequence of broadcast lines,
/// one transition per line, oldest first.
pub open spec fn watch_fold(ws: (Seq<Card>, int), lines: Seq<Seq<char>>) -> (Seq<Card>, int)
    decreases lines.len(),
{
    if lines.len() == 0 {
        ws
    } else {
        watch_fold(
            (crate::bot::watch_shared(ws.0, lines[0]), crate::bot::watch_ceiling(ws.1, lines[0])),
            lines.drop_first(),
        )
    }
}

/// A sequence of broadcast lines delivered to one seat, in order: a
/// network participant is owed exactly these lines in addition, its
/// inbound queue untouched; a heuristic participant applies its watched
/// transition to each in turn.
pub open spec fn seat_delivered(s0: Seat, s1: Seat, lines: Seq<Seq<char>>) -> bool {
    &&& (s0 is Human <==> s1 is Human)
    &&& s1.queued() == s0.queued()
    &&& (s0 is Human ==> s1.owed() == s0.owed() + lines)
    &&& (s0 is Bot ==> s1.watch() == watch_fold(s0.watch(), lines))
}

/// Nothing delivered changes nothing.
pub proof fn lemma_delivered_zero(s: Seat)
    ensures
        seat_delivered(s, s, Seq::empty()),
{
    assert(s.owed() + Seq::<Seq<char>>::empty() =~~= s.owed());
}

/// One sent line is one delivered line.
pub proof fn lemma_delivered_one(s0: Seat, s1: Seat, l: Seq<char>)
    requires
        seat_sent(s0, s1, l),
    ensures
        seat_delivered(s0, s1, seq![l]),
{
    match s0 {
        Seat::Human(h) => {
            match s1 {
                Seat::Human(h2) => {
                    assert(h2.inbox == h.inbox);
                    assert(s1.owed() =~~= s0.owed() + seq![l]) by {
                        assert(crate::table::line_views(h2.outbox@) =~~= crate::table::line_views(
                            h.outbox@,
                        ) + seq![l]);
                    }
                },
                Seat::Bot(_) => {
                    assert(false);
                },
            }
        },
        Seat::Bot(b) => {
            match s1 {
                Seat::Bot(b2) => {
                    let ws1 = (
                        crate::bot::watch_shared(b.shared@, l),
                        crate::bot::watch_ceiling(b.max_bet as int, l),
                    );
                    assert(seq![l].drop_first() =~~= Seq::<Seq<char>>::empty());
                    assert(watch_fold(ws1, Seq::<Seq<char>>::empty()) == ws1);
                    assert(watch_fold(s0.watch(), seq![l]) == ws1);
                    assert(s1.watch() == ws1);
                },
                Seat::Human(_) => {
                    assert(false);
                },
            }
        },
    }
}

/// Folding one more line steps the folded watch state once.
pub proof fn lemma_watch_fold_snoc(ws: (Seq<Card>, int), lines: Seq<Seq<char>>, l: Seq<char>)
    ensures
        watch_fold(ws, lines.push(l)) == (
            crate::bot::watch_shared(watch_fold(ws, lines).0, l),
            crate::bot::watch_ceiling(watch_fold(ws, lines).1, l),
        ),
    decreases lines.len(),
{
    if lines.len() == 0 {
        let ws1 = (crate::bot::watch_shared(ws.0, l), crate::bot::watch_ceiling(ws.1, l));
        assert(lines.push(l)[0] == l);
        assert(lines.push(l).drop_first() =~~= Seq::<Seq<char>>::empty());
        assert(watch_fold(ws1, lines.push(l).drop_first()) == ws1);
        assert(watch_fold(ws, lines) == ws);
    } else {
        let ws1 = (
            crate::bot::watch_shared(ws.0, lines[0]),
            crate::bot::watch_ceiling(ws.1, lines[0]),
        );
        assert(lines.push(l)[0] == lines[0]);
        assert(lines.push(l).drop_first() =~~= lines.drop_first().push(l));
        lemma_watch_fold_snoc(ws1, lines.drop_first(), l);
        assert(watch_fold(ws, lines.push(l)) == watch_fold(ws1, lines.drop_first().push(l)));
        assert(watch_fold(ws, lines) == watch_fold(ws1, lines.drop_first()));
    }
}

/// A further sent line extends the delivered sequence.
pub proof fn lemma_delivered_snoc(s0: Seat, s1: Seat, s2: Seat, lines: Seq<Seq<char>>, l: Seq<char>)
    requires
        seat_delivered(s0, s1, lines),
        seat_sent(s1, s2, l),
    ensures
        seat_delivered(s0, s2, lines.push(l)),
{
    lemma_delivered_one(s1, s2, l);
    if s0 is Human {
        assert(s2.owed() =~~= s0.owed() + lines.push(l)) by {
            assert(s2.owed() == s1.owed() + seq![l]);
            assert((s0.owed() + lines) + seq![l] =~~= s0.owed() + lines.push(l));
        }
    } else {
        lemma_watch_fold_snoc(s0.watch(), lines, l);
        assert(s2.watch() == watch_fold(s1.watch(), seq![l]));
        let ws1 = (
            crate::bot::watch_shared(s1.watch().0, l),
            crate::bot::watch_ceiling(s1.watch().1, l),
        );
        assert(seq![l].drop_first() =~~= Seq::<Seq<char>>::empty());
        assert(watch_fold(ws1, seq![l].drop_first()) == ws1);
    }
}

/// A state change that touches no queue, owed line or watched state keeps
/// the delivered sequence.
pub proof fn lemma_delivered_still(s0: Seat, s1: Seat, s2: Seat, lines: Seq<Seq<char>>)
    requires
        seat_delivered(s0, s1, lines),
        s2.queued() == s1.queued(),
        s2.owed() == s1.owed(),
        s2.watch() == s1.watch(),
        s1 is Human <==> s2 is Human,
    ensures
        seat_delivered(s0, s2, lines),
{
}

/// Like `seat_delivered`, but with no claim on the inbound queue — for
/// steps where the seat also consumed a queued line.
pub open spec fn seat_told(s0: Seat, s1: Seat, lines: Seq<Seq<char>>) -> bool {
    &&& (s0 is Human <==> s1 is Human)
    &&& (s0 is Human ==> s1.owed() == s0.owed() + lines)
    &&& (s0 is Bot ==> s1.watch() == watch_fold(s0.watch(), lines))
}

/// Nothing told changes no owed line and no watched state.
pub proof fn lemma_told_zero(s: Seat)
    ensures
        seat_told(s, s, Seq::empty()),
{
    assert(s.owed() + Seq::<Seq<char>>::empty() =~~= s.owed());
}

/// A further sent line extends the told sequence.
pub proof fn lemma_told_snoc(s0: Seat, s1: Seat, s2: Seat, lines: Seq<Seq<char>>, l: Seq<char>)
    requires
        seat_told(s0, s1, lines),
        seat_sent(s1, s2, l),
    ensures
        seat_told(s0, s2, lines.push(l)),
{
    lemma_delivered_one(s1, s2, l);
    if s0 is Human {
        assert(s2.owed() =~~= s0.owed() + lines.push(l)) by {
            assert(s2.owed() == s1.owed() + seq![l]);
            assert((s0.owed() + lines) + seq![l] =~~= s0.owed() + lines.push(l));
        }
    } else {
        lemma_watch_fold_snoc(s0.watch(), lines, l);
        assert(s2.watch() == watch_fold(s1.watch(), seq![l]));
        let ws1 = (
            crate::bot::watch_shared(s1.watch().0, l),
            crate::bot::watch_ceiling(s1.watch().1, l),
        );
        assert(seq![l].drop_first() =~~= Seq::<Seq<char>>::empty());
        assert(watch_fold(ws1, seq![l].drop_first()) == ws1);
    }
}

/// A state change that touches no owed line and no watched state keeps
/// the told sequence.
pub proof fn lemma_told_still(s0: Seat, s1: Seat, s2: Seat, lines: Seq<Seq<char>>)
    requires
        seat_told(s0, s1, lines),
        s2.owed() == s1.owed(),
        s2.watch() == s1.watch(),
        s1 is Human <==> s2 is Human,
    ensures
        seat_told(s0, s2, lines),
{
}

/// The capability every participant implementation offers the table.
pub trait Player: Sized {
    /// The participant state as the table sees it.
    spec fn model(&self) -> PlayerModel;

    /// Whether an answer to `wait_for_message` is available right now
    /// without blocking.
    spec fn can_reply(&self) -> bool;

    /// The line `wait_for_message` answers with: the first queued inbound
    /// line, an implicit fold on a dead connection, or the heuristic
    /// decision.
    spec fn reply_line(&self) -> Seq<char>;

    /// The inbound lines queued at this participant, oldest first (a
    /// heuristic participant queues nothing).
    spec fn queued_lines(&self) -> Seq<Seq<char>>;

    /// The outbound lines owed to this participant, oldest first (a
    /// heuristic participant is owed nothing).
    spec fn owed_lines(&self) -> Seq<Seq<char>>;

    /// What `get_message` answers: the first queued line, or the lobby
    /// announcement a heuristic participant repeats, or nothing.
    spec fn lobby_line(&self) -> Option<Seq<char>>;

    /// Pulls the next queued inbound line, if any; a heuristic participant
    /// answers its lobby announcement instead.
    fn get_message(&mut self) -> (r: Option<String>)
        ensures
            final(self).model() == old(self).model(),
            (r matches Some(l) ==> old(self).lobby_line() == Some(l@)),
            (r is None <==> old(self).lobby_line() is None),
            final(self).queued_lines() == (if old(self).queued_lines().len() > 0 {
                old(self).queued_lines().drop_first()
            } else {
                old(self).queued_lines()
            });

    /// The next inbound line; for a dead connection, an implicit fold. The
    /// answered line leaves the queue.
    fn wait_for_message(&mut self) -> (r: String)
        requires
            old(self).can_reply(),
        ensures
            final(self).model() == old(self).model(),
            r@ == old(self).reply_line(),
            final(self).queued_lines() == (if old(self).queued_lines().len() > 0 {
                old(self).queued_lines().drop_first()
            } else {
                old(self).queued_lines()
            });

    /// Deals the two hole cards for this hand.
    fn set_cards(&mut self, cards: [Card; 2])
        requires
            valid_card(cards[0]),
            valid_card(cards[1]),
        ensures
            final(self).model() == (PlayerModel { cards: Some(cards), ..old(self).model() }),
            final(self).owed_lines() == old(self).owed_lines(),
            final(self).queued_lines() == old(self).queued_lines();

    /// The two hole cards.
    fn get_cards(&self) -> (r: [Card; 2])
        requires
            self.model().cards is Some,
        ensures
            Some(r) == self.model().cards;

    /// The display name, once bound.
    fn get_name(&self) -> (r: Option<String>)
        ensures
            (match r {
                Some(n) => self.model().name == Some(n@),
                None => self.model().name is None,
            });

    /// Binds the display name.
    fn set_name(&mut self, name: String)
        ensures
            final(self).model() == (PlayerModel { name: Some(name@), ..old(self).model() }),
            final(self).owed_lines() == old(self).owed_lines(),
            final(self).queued_lines() == old(self).queued_lines();

    /// The chip stack.
    fn get_money(&self) -> (r: i32)
        ensures
            r as int == self.model().money;

    /// Sets the chip stack.
    fn set_money(&mut self, money: i32)
        ensures
            final(self).model() == (PlayerModel { money: money as int, ..old(self).model() }),
            final(self).owed_lines() == old(self).owed_lines(),
            final(self).queued_lines() == old(self).queued_lines();

    /// The folded flag.
    fn get_fold(&self) -> (r: bool)
        ensures
            r == self.model().fold;

    /// Sets the folded flag.
    fn set_fold(&mut self, fold: bool)
        ensures
            final(self).model() == (PlayerModel { fold: fold, ..old(self).model() }),
            final(self).owed_lines() == old(self).owed_lines(),
            final(self).queued_lines() == old(self).queued_lines();

    /// The current-street wager.
    fn get_bet(&self) -> (r: i32)
        ensures
            r as int == self.model().bet;

    /// Sets the current-street wager.
    fn set_bet(&mut self, bet: i32)
        ensures
            final(self).model() == (PlayerModel { bet: bet as int, ..old(self).model() }),
            final(self).owed_lines() == old(self).owed_lines(),
            final(self).queued_lines() == old(self).queued_lines();

    /// Applies a wager request: raises the wager to `bet`, paying the
    /// difference from the stack, or clamps to an all-in of the remaining
    /// stack when the difference exceeds it. Either way the seat's stack
    /// plus wager is preserved.
    fn bet(&mut self, bet: i32)
        requires
            -0x8000_0000 <= bet - old(self).model().bet <= 0x7fff_ffff,
            0 <= old(self).model().money + old(self).model().bet <= 0x7fff_ffff,
            old(self).model().money + old(self).model().bet - bet <= 0x7fff_ffff,
        ensures
            bet - old(self).model().bet > old(self).model().money ==> final(self).model() == (
            PlayerModel {
                money: 0,
                bet: old(self).model().bet + old(self).model().money,
                ..old(self).model()
            }),
            bet - old(self).model().bet <= old(self).model().money ==> final(self).model() == (
            PlayerModel {
                money: old(self).model().money - (bet - old(self).model().bet),
                bet: bet as int,
                ..old(self).model()
            }),
            final(self).model() == wager_clamp(old(self).model(), bet as int),
            final(self).owed_lines() == old(self).owed_lines(),
            final(self).queued_lines() == old(self).queued_lines();

    /// Whether the whole stack is committed.
    fn is_allin(&self) -> (r: bool)
        ensures
            r == (self.model().money == 0),
    {
        self.get_money() == 0
    }

    /// Whether the connection is gone.
    fn is_dead(&self) -> (r: bool)
        ensures
            r == self.model().dead;

    /// Delivers an outbound line to the participant.
    fn send(&mut self, msg: &str)
        ensures
            final(self).model() == old(self).model();
}

/// One seat at the table: a network-backed participant or a heuristic one.
pub enum Seat {
    Human(HumanSeat),
    Bot(Bot),
}

impl Seat {
    /// The participant state of whoever sits here.
    pub open spec fn model(&self) -> PlayerModel {
        match self {
            Seat::Human(h) => h.model(),
            Seat::Bot(b) => b.model(),
        }
    }

    /// The seat's stored cards are valid, and a heuristic participant's
    /// internal state is consistent.
    pub open spec fn wf(&self) -> bool {
        match self {
            Seat::Human(h) => (h.cards matches Some(c) ==> valid_card(c[0]) && valid_card(c[1])),
            Seat::Bot(b) => b.wf(),
        }
    }

    /// The inbound lines queued at this seat, oldest first.
    pub open spec fn queued(&self) -> Seq<Seq<char>> {
        match self {
            Seat::Human(h) => h.queued_lines(),
            Seat::Bot(b) => Seq::empty(),
        }
    }

    /// The outbound lines owed to this seat, oldest first.
    pub open spec fn owed(&self) -> Seq<Seq<char>> {
        match self {
            Seat::Human(h) => h.owed_lines(),
            Seat::Bot(b) => Seq::empty(),
        }
    }

    /// The broadcast-watching state of this seat: the community cards and
    /// the ceiling a heuristic participant tracks.
    pub open spec fn watch(&self) -> (Seq<Card>, int) {
        match self {
            Seat::Human(h) => (Seq::empty(), 0),
            Seat::Bot(b) => (b.shared@, b.max_bet as int),
        }
    }

    /// Whether an action can be produced right now without blocking.
    pub open spec fn ready_now(&self) -> bool {
        match self {
            Seat::Human(h) => h.can_reply(),
            Seat::Bot(b) => true,
        }
    }

    /// The chip stack.
    pub fn get_money(&self) -> (r: i32)
        ensures
            r as int == self.model().money,
    {
        match self {
            Seat::Human(h) => h.get_money(),
            Seat::Bot(b) => b.get_money(),
        }
    }

    /// Sets the chip stack.
    pub fn set_money(&mut self, money: i32)
        ensures
            final(self).model() == (PlayerModel { money: money as int, ..old(self).model() }),
            final(self).wf() == old(self).wf(),
            final(self).owed() == old(self).owed(),
            final(self).queued() == old(self).queued(),
            final(self).watch() == old(self).watch(),
            ((*old(self)) is Human <==> (*final(self)) is Human),
    {
        match self {
            Seat::Human(h) => h.set_money(money),
            Seat::Bot(b) => b.set_money_keep(money),
        }
    }

    /// The current-street wager.
    pub fn get_bet(&self) -> (r: i32)
        ensures
            r as int == self.model().bet,
    {
        match self {
            Seat::Human(h) => h.get_bet(),
            Seat::Bot(b) => b.get_bet(),
        }
    }

    /// Sets the current-street wager.
    pub fn set_bet(&mut self, bet: i32)
        ensures
            final(self).model() == (PlayerModel { bet: bet as int, ..old(self).model() }),
            final(self).wf() == old(self).wf(),
            final(self).owed() == old(self).owed(),
            final(self).queued() == old(self).queued(),
            final(self).watch() == old(self).watch(),
            ((*old(self)) is Human <==> (*final(self)) is Human),
    {
        match self {
            Seat::Human(h) => h.set_bet(bet),
            Seat::Bot(b) => b.set_bet_keep(bet),
        }
    }

    /// The folded flag.
    pub fn get_fold(&self) -> (r: bool)
        ensures
            r == self.model().fold,
    {
        match self {
            Seat::Human(h) => h.get_fold(),
            Seat::Bot(b) => b.get_fold(),
        }
    }

    /// Sets the folded flag.
    pub fn set_fold(&mut self, fold: bool)
        ensures
            final(self).model() == (PlayerModel { fold: fold, ..old(self).model() }),
            final(self).wf() == old(self).wf(),
            final(self).owed() == old(self).owed(),
            final(self).queued() == old(self).queued(),
            final(self).watch() == old(self).watch(),
            ((*old(self)) is Human <==> (*final(self)) is Human),
    {
        match self {
            Seat::Human(h) => h.set_fold(fold),
            Seat::Bot(b) => b.set_fold_keep(fold),
        }
    }

    /// The display name, once bound.
    pub fn get_name(&self) -> (r: Option<String>)
        ensures
            (match r {
                Some(n) => self.model().name == Some(n@),
                None => self.model().name is None,
            }),
    {
        match self {
            Seat::Human(h) => h.get_name(),
            Seat::Bot(b) => b.get_name(),
        }
    }

    /// Binds the display name.
    pub fn set_name(&mut self, name: String)
        ensures
            final(self).model() == (PlayerModel { name: Some(name@), ..old(self).model() }),
            final(self).wf() == old(self).wf(),
            final(self).owed() == old(self).owed(),
            final(self).queued() == old(self).queued(),
            final(self).watch() == old(self).watch(),
            ((*old(self)) is Human <==> (*final(self)) is Human),
    {
        match self {
            Seat::Human(h) => h.set_name(name),
            Seat::Bot(b) => b.set_name_keep(name),
        }
    }

    /// Deals the two hole cards.
    pub fn set_cards(&mut self, cards: [Card; 2])
        requires
            valid_card(cards[0]),
            valid_card(cards[1]),
        ensures
            final(self).model() == (PlayerModel { cards: Some(cards), ..old(self).model() }),
            old(self).wf() ==> final(self).wf(),
            final(self).owed() == old(self).owed(),
            final(self).queued() == old(self).queued(),
            final(self).watch() == old(self).watch(),
            ((*old(self)) is Human <==> (*final(self)) is Human),
    {
        match self {
            Seat::Human(h) => h.set_cards(cards),
            Seat::Bot(b) => b.set_cards_keep(cards),
        }
    }

    /// The two hole cards.
    pub fn get_cards(&self) -> (r: [Card; 2])
        requires
            self.model().cards is Some,
        ensures
            Some(r) == self.model().cards,
    {
        match self {
            Seat::Human(h) => h.get_cards(),
            Seat::Bot(b) => b.get_cards(),
        }
    }

    /// Whether the whole stack is committed.
    pub fn is_allin(&self) -> (r: bool)
        ensures
            r == (self.model().money == 0),
    {
        self.get_money() == 0
    }

    /// Whether the connection is gone (a heuristic participant never is).
    pub fn is_dead(&self) -> (r: bool)
        ensures
            r == self.model().dead,
    {
        match self {
            Seat::Human(h) => h.is_dead(),
            Seat::Bot(b) => b.is_dead(),
        }
    }

    /// Applies a wager request with the all-in clamp. The seat's stack
    /// plus wager is preserved either way.
    pub fn bet(&mut self, bet: i32)
        requires
            -0x8000_0000 <= bet - old(self).model().bet <= 0x7fff_ffff,
            0 <= old(self).model().money + old(self).model().bet <= 0x7fff_ffff,
            old(self).model().money + old(self).model().bet - bet <= 0x7fff_ffff,
        ensures
            bet - old(self).model().bet > old(self).model().money ==> final(self).model() == (
            PlayerModel {
                money: 0,
                bet: old(self).model().bet + old(self).model().money,
                ..old(self).model()
            }),
            bet - old(self).model().bet <= old(self).model().money ==> final(self).model() == (
            PlayerModel {
                money: old(self).model().money - (bet - old(self).model().bet),
                bet: bet as int,
                ..old(self).model()
            }),
            final(self).model().money + final(self).model().bet == old(self).model().money + old(
                self,
            ).model().bet,
            final(self).model() == wager_clamp(old(self).model(), bet as int),
            final(self).wf() == old(self).wf(),
            final(self).owed() == old(self).owed(),
            final(self).queued() == old(self).queued(),
            final(self).watch() == old(self).watch(),
            ((*old(self)) is Human <==> (*final(self)) is Human),
    {
        match self {
            Seat::Human(h) => h.bet(bet),
            Seat::Bot(b) => b.bet_keep(bet),
        }
    }

    /// The action line this seat produces when prompted: its first queued
    /// line, an implicit fold on a dead connection, or the heuristic
    /// decision.
    pub open spec fn action_line(&self) -> Seq<char> {
        match self {
            Seat::Human(h) => if h.inbox@.len() > 0 {
                h.inbox@[0]@
            } else {
                "FOLD"@
            },
            Seat::Bot(b) => crate::bot::spec_decision(*b),
        }
    }

    /// Delivers an outbound broadcast line to the participant: a network
    /// participant's outbox grows by exactly this line, a heuristic
    /// participant applies its watched-state transition; nothing else
    /// changes.
    pub fn send(&mut self, msg: &str)
        ensures
            final(self).model() == old(self).model(),
            old(self).wf() ==> final(self).wf(),
            seat_sent(*old(self), *final(self), msg@),
    {
        match self {
            Seat::Human(h) => h.push_outbox(msg),
            Seat::Bot(b) => b.recv_line(msg),
        }
    }

    /// Pulls the next queued inbound line, if any; a heuristic seat
    /// answers its lobby announcement instead.
    pub fn get_message(&mut self) -> (r: Option<String>)
        ensures
            final(self).model() == old(self).model(),
            final(self).wf() == old(self).wf(),
            ((*old(self)) matches Seat::Human(h) ==> ((r matches Some(l) ==> h.inbox@.len() > 0
                && l@ == h.inbox@[0]@) && ((r is None) <==> h.inbox@.len() == 0))),
            ((*old(self)) matches Seat::Bot(b) ==> r matches Some(l) && l@ == "READY "@ + b.name@
                && *final(self) == *old(self)),
            final(self).queued() == (if old(self).queued().len() > 0 {
                old(self).queued().drop_first()
            } else {
                old(self).queued()
            }),
    {
        match self {
            Seat::Human(h) => h.get_message(),
            Seat::Bot(b) => b.ready_line(),
        }
    }

    /// The next action line of whoever sits here: a queued line, an
    /// implicit fold for a dead connection, the heuristic decision for a
    /// bot — or nothing, when a live network participant has not spoken
    /// yet.
    pub fn next_action(&mut self) -> (r: Option<String>)
        requires
            old(self).wf(),
            0 <= old(self).model().money,
            0 <= old(self).model().bet,
            old(self).model().money + old(self).model().bet <= 0x7fff_ffff,
        ensures
            final(self).model() == old(self).model(),
            final(self).wf(),
            r is None ==> !old(self).ready_now(),
            r is None ==> ((*old(self)) matches Seat::Human(h) && h.inbox@.len() == 0 && !h.dead
                && *final(self) == *old(self)),
            r matches Some(l) ==> l@ == old(self).action_line(),
            ((*old(self)) matches Seat::Human(h) ==> ((*final(self)) matches Seat::Human(h2)
                && h2.outbox == h.outbox && h2.conn == h.conn && (h.inbox@.len() > 0
                ==> h2.inbox@ == h.inbox@.drop_first()) && (h.inbox@.len() == 0 ==> h2.inbox
                == h.inbox))),
            ((*old(self)) is Bot ==> *final(self) == *old(self)),
            r matches Some(l) ==> final(self).queued() == (if old(self).queued().len() > 0 {
                old(self).queued().drop_first()
            } else {
                old(self).queued()
            }),
    {
        match self {
            Seat::Human(h) => {
                if h.has_line() {
                    Some(h.take_line())
                } else if h.is_dead() {
                    Some(String::from_str("FOLD"))
                } else {
                    None
                }
            },
            Seat::Bot(b) => Some(b.decide()),
        }
    }
}

} // verus!
