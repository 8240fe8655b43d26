//! The heuristic participant: it watches the broadcast lines to track the
//! community cards and the betting ceiling, and when asked to act it
//! classifies its cards and wagers a category-dependent share of its chips.

use vstd::prelude::*;

use crate::card::{rank_char, valid_card, Card};
use crate::classify::best_cat;
use crate::hand::{Hand, HandType};
use crate::player::{Player, PlayerModel};
use crate::text::int_dec;

verus! {

/// A heuristic participant.
pub struct Bot {
    pub name: String,
    pub cards: Option<[Card; 2]>,
    pub money: i32,
    pub fold: bool,
    pub bet: i32,
    pub shared: Vec<Card>,
    pub max_bet: i32,
}

/// The share of its chips-in-play the heuristic is prepared to wager for
/// each hand category, in percent.
pub open spec fn bet_percent(t: HandType) -> int {
    match t {
        HandType::HighCard => 30,
        HandType::Pair => 40,
        HandType::TwoPair => 60,
        HandType::ThreeOfAKind => 60,
        HandType::Straight => 80,
        HandType::Flush => 90,
        HandType::FullHouse => 90,
        HandType::FourOfAKind => 100,
        HandType::StraightFlush => 100,
    }
}

/// Executable percentage table, equal to the specification `bet_percent`.
pub fn bet_percent_exec(t: HandType) -> (r: i32)
    ensures
        r as int == bet_percent(t),
{
    match t {
        HandType::HighCard => 30,
        HandType::Pair => 40,
        HandType::TwoPair => 60,
        HandType::ThreeOfAKind => 60,
        HandType::Straight => 80,
        HandType::Flush => 90,
        HandType::FullHouse => 90,
        HandType::FourOfAKind => 100,
        HandType::StraightFlush => 100,
    }
}

/// The cards the heuristic evaluates: its hole cards and the revealed
/// community cards.
pub open spec fn bot_view_cards(b: Bot) -> Seq<Card> {
    match b.cards {
        Some(h) => seq![h[0], h[1]] + b.shared@,
        None => b.shared@,
    }
}

/// The community cards a heuristic participant tracks after seeing one
/// broadcast line: a private `CARDS` deal clears them, a well-formed
/// `CARD` reveal appends the named card, anything else leaves them alone.
pub open spec fn watch_shared(shared: Seq<Card>, line: Seq<char>) -> Seq<Card> {
    let ts = crate::text::split_sp(line);
    if ts[0] == "CARDS"@ {
        Seq::empty()
    } else if ts[0] == "CARD"@ && ts.len() >= 2 && ts[1].len() >= 2 && rank_char(ts[1][0]) >= 1 {
        shared.push(Card { fig: ts[1][0], col: ts[1][1] })
    } else {
        shared
    }
}

/// The betting ceiling a heuristic participant tracks after seeing one
/// broadcast line: a well-formed `SBLIND`, `BBLIND` or `BET` line moves it
/// to the announced amount, anything else leaves it alone.
pub open spec fn watch_ceiling(max_bet: int, line: Seq<char>) -> int {
    let ts = crate::text::split_sp(line);
    if (ts[0] == "SBLIND"@ || ts[0] == "BBLIND"@) && ts.len() >= 3 && crate::text::valid_i32_str(
        ts[2],
    ) {
        crate::text::i32_str_val(ts[2])
    } else if ts[0] == "BET"@ && ts.len() >= 2 && crate::text::valid_i32_str(ts[1]) {
        crate::text::i32_str_val(ts[1])
    } else {
        max_bet
    }
}

/// The decision the heuristic announces when asked to act: before any
/// community card it calls the current ceiling; afterwards it computes the
/// best category of its cards, aims at the matching share of its
/// chips-in-play, and folds when the ceiling lies above that target.
pub open spec fn spec_decision(b: Bot) -> Seq<char> {
    if b.shared@.len() == 0 {
        "BET"@ + seq![' '] + int_dec(b.max_bet as int)
    } else {
        let target = (b.money + b.bet) * bet_percent(best_cat(bot_view_cards(b))) / 100;
        if b.max_bet > target {
            "FOLD"@
        } else {
            "BET"@ + seq![' '] + int_dec(target)
        }
    }
}

impl Bot {
    /// A fresh heuristic participant named `BOT<nr>`.
    pub fn new(nr: i32) -> (b: Bot)
        ensures
            b.model() == (PlayerModel {
                name: Some("BOT"@ + int_dec(nr as int)),
                cards: None,
                money: 0,
                bet: 0,
                fold: false,
                dead: false,
            }),
            b.shared@.len() == 0,
            b.max_bet == 0,
            b.wf(),
    {
        let mut name = String::from_str("BOT");
        let digits = crate::text::i32_dec_str(nr);
        name.append(digits.as_str());
        Bot {
            name,
            cards: None,
            money: 0,
            fold: false,
            bet: 0,
            shared: Vec::new(),
            max_bet: 0,
        }
    }

    /// Every card the heuristic holds or has seen is a valid card.
    pub open spec fn wf(&self) -> bool {
        &&& (self.cards matches Some(c) ==> valid_card(c[0]) && valid_card(c[1]))
        &&& forall|i: int| 0 <= i < self.shared@.len() ==> valid_card(#[trigger] self.shared@[i])
    }

    /// The lobby line a heuristic participant announces itself with:
    /// `READY <name>`.
    pub fn ready_line(&self) -> (r: Option<String>)
        ensures
            r matches Some(l) && l@ == "READY "@ + self.name@,
    {
        let mut line = String::from_str("READY ");
        line.append(self.name.as_str());
        Some(line)
    }

    /// Sets the chip stack, leaving the watched state alone.
    pub fn set_money_keep(&mut self, money: i32)
        ensures
            final(self).model() == (PlayerModel { money: money as int, ..old(self).model() }),
            final(self).shared == old(self).shared,
            final(self).cards == old(self).cards,
            final(self).max_bet == old(self).max_bet,
    {
        self.money = money;
    }

    /// Sets the wager, leaving the watched state alone.
    pub fn set_bet_keep(&mut self, bet: i32)
        ensures
            final(self).model() == (PlayerModel { bet: bet as int, ..old(self).model() }),
            final(self).shared == old(self).shared,
            final(self).cards == old(self).cards,
            final(self).max_bet == old(self).max_bet,
    {
        self.bet = bet;
    }

    /// Sets the folded flag, leaving the watched state alone.
    pub fn set_fold_keep(&mut self, fold: bool)
        ensures
            final(self).model() == (PlayerModel { fold: fold, ..old(self).model() }),
            final(self).shared == old(self).shared,
            final(self).cards == old(self).cards,
            final(self).max_bet == old(self).max_bet,
    {
        self.fold = fold;
    }

    /// Binds the display name, leaving the watched state alone.
    pub fn set_name_keep(&mut self, name: String)
        ensures
            final(self).model() == (PlayerModel { name: Some(name@), ..old(self).model() }),
            final(self).shared == old(self).shared,
            final(self).cards == old(self).cards,
            final(self).max_bet == old(self).max_bet,
    {
        self.name = name;
    }

    /// Deals the hole cards, leaving the watched state alone.
    pub fn set_cards_keep(&mut self, cards: [Card; 2])
        requires
            valid_card(cards[0]),
            valid_card(cards[1]),
        ensures
            final(self).model() == (PlayerModel { cards: Some(cards), ..old(self).model() }),
            final(self).shared == old(self).shared,
            final(self).max_bet == old(self).max_bet,
            old(self).wf() ==> final(self).wf(),
    {
        self.cards = Some(cards);
    }

    /// Applies a wager with the all-in clamp, leaving the watched state
    /// alone.
    pub fn bet_keep(&mut self, bet: i32)
        requires
            -0x8000_0000 <= bet - old(self).model().bet <= 0x7fff_ffff,
            0 <= old(self).model().money + old(self).model().bet <= 0x7fff_ffff,
            old(self).model().money + old(self).model().bet - bet <= 0x7fff_ffff,
        ensures
            bet - old(self).model().bet > old(self).model().money ==> final(self).model() == (
            PlayerModel {
                money: 0,
                bet: old(self).model().bet + old(self).model().money,
                ..old(self).model()
            }),
            bet - old(self).model().bet <= old(self).model().money ==> final(self).model() == (
            PlayerModel {
                money: old(self).model().money - (bet - old(self).model().bet),
                bet: bet as int,
                ..old(self).model()
            }),
            final(self).shared == old(self).shared,
            final(self).cards == old(self).cards,
            final(self).max_bet == old(self).max_bet,
    {
        if bet - self.bet > self.money {
            self.bet = self.bet + self.money;
            self.money = 0;
        } else {
            self.money = self.money - (bet - self.bet);
            self.bet = bet;
        }
    }

    /// Updates the watched state from one broadcast line: a private
    /// `CARDS` deal clears the seen community cards, `CARD` reveals one,
    /// and `SBLIND`, `BBLIND` and `BET` move the betting ceiling, exactly
    /// as `watch_shared` and `watch_ceiling` state it. Lines that do not
    /// fit the protocol are ignored.
    pub fn recv_line(&mut self, msg: &str)
        ensures
            final(self).model() == old(self).model(),
            final(self).cards == old(self).cards,
            old(self).wf() ==> final(self).wf(),
            final(self).shared@ == watch_shared(old(self).shared@, msg@),
            final(self).max_bet as int == watch_ceiling(old(self).max_bet as int, msg@),
    {
        let ts = crate::text::tokenize(msg);
        proof {
            reveal_strlit("CARDS");
            reveal_strlit("CARD");
            reveal_strlit("SBLIND");
            reveal_strlit("BBLIND");
            reveal_strlit("BET");
            assert(ts@[0]@ == crate::text::split_sp(msg@)[0]);
            if ts@.len() >= 2 {
                assert(ts@[1]@ == crate::text::split_sp(msg@)[1]);
            }
            if ts@.len() >= 3 {
                assert(ts@[2]@ == crate::text::split_sp(msg@)[2]);
            }
        }
        let cards_w = String::from_str("CARDS");
        let card_w = String::from_str("CARD");
        let sblind_w = String::from_str("SBLIND");
        let bblind_w = String::from_str("BBLIND");
        let bet_w = String::from_str("BET");
        if ts[0] == cards_w {
            self.shared.clear();
        } else if ts[0] == card_w {
            if ts.len() >= 2 {
                let tok = &ts[1];
                if tok.as_str().unicode_len() >= 2 {
                    let c = Card::new(tok.as_str());
                    if crate::card::rank_index(c.fig) >= 1 {
                        self.shared.push(c);
                    }
                }
            }
        } else if ts[0] == sblind_w || ts[0] == bblind_w {
            if ts.len() >= 3 {
                match crate::text::parse_i32(ts[2].as_str()) {
                    Some(v) => {
                        self.max_bet = v;
                    },
                    None => {},
                }
            }
        } else if ts[0] == bet_w {
            if ts.len() >= 2 {
                match crate::text::parse_i32(ts[1].as_str()) {
                    Some(v) => {
                        self.max_bet = v;
                    },
                    None => {},
                }
            }
        }
    }

    /// The heuristic decision, exactly as `spec_decision` states it.
    pub fn decide(&self) -> (r: String)
        requires
            self.wf(),
            0 <= self.model().money,
            0 <= self.model().bet,
            self.model().money + self.model().bet <= 0x7fff_ffff,
        ensures
            r@ == spec_decision(*self),
    {
        if self.shared.len() == 0 {
            let mut line = String::from_str("BET");
            crate::text::push_char(&mut line, ' ');
            let digits = crate::text::i32_dec_str(self.max_bet);
            line.append(digits.as_str());
            proof {
                assert(line@ =~= spec_decision(*self));
            }
            return line;
        }
        let ghost head: Seq<Card> = match self.cards {
            Some(h) => seq![h[0], h[1]],
            None => Seq::empty(),
        };
        let mut all: Vec<Card> = Vec::new();
        match self.cards {
            Some(hole) => {
                all.push(hole[0]);
                all.push(hole[1]);
            },
            None => {},
        }
        proof {
            assert(all@ =~= head);
        }
        let mut k: usize = 0;
        while k < self.shared.len()
            invariant
                k <= self.shared@.len(),
                head == (match self.cards {
                    Some(h) => seq![h[0], h[1]],
                    None => Seq::<Card>::empty(),
                }),
                all@ =~= head + self.shared@.take(k as int),
            decreases self.shared@.len() - k,
        {
            all.push(self.shared[k]);
            proof {
                assert(all@ =~= head + self.shared@.take(k + 1));
            }
            k += 1;
        }
        proof {
            assert(self.shared@.take(self.shared@.len() as int) =~= self.shared@);
            assert(all@ =~= bot_view_cards(*self));
            assert forall|i: int| 0 <= i < all@.len() implies valid_card(#[trigger] all@[i]) by {
                if i >= head.len() {
                    assert(all@[i] == self.shared@[i - head.len()]);
                }
            }
        }
        let hands = Hand::find_all(0, all.as_slice());
        proof {
            crate::classify::lemma_last_is_best(hands@, all@, 0);
        }
        let best = hands[hands.len() - 1].hand_type;
        let total: i64 = self.money as i64 + self.bet as i64;
        let pct = bet_percent_exec(best);
        proof {
            assert(0 <= total * (pct as i64) <= total * 100) by (nonlinear_arith)
                requires
                    0 <= total,
                    0 <= pct <= 100,
            ;
        }
        let t64: i64 = total * (pct as i64) / 100;
        let target: i32 = t64 as i32;
        if self.max_bet > target {
            let line = String::from_str("FOLD");
            proof {
                assert(line@ == spec_decision(*self));
            }
            line
        } else {
            let mut line = String::from_str("BET");
            crate::text::push_char(&mut line, ' ');
            let digits = crate::text::i32_dec_str(target);
            line.append(digits.as_str());
            proof {
                assert(line@ =~= spec_decision(*self));
            }
            line
        }
    }
}

impl Player for Bot {
    open spec fn model(&self) -> PlayerModel {
        PlayerModel {
            name: Some(self.name@),
            cards: self.cards,
            money: self.money as int,
            bet: self.bet as int,
            fold: self.fold,
            dead: false,
        }
    }

    open spec fn can_reply(&self) -> bool {
        &&& self.wf()
        &&& (self.shared@.len() > 0 ==> self.cards is Some)
        &&& 0 <= self.money
        &&& 0 <= self.bet
        &&& self.money + self.bet <= 0x7fff_ffff
    }

    open spec fn reply_line(&self) -> Seq<char> {
        spec_decision(*self)
    }

    open spec fn queued_lines(&self) -> Seq<Seq<char>> {
        Seq::empty()
    }

    open spec fn owed_lines(&self) -> Seq<Seq<char>> {
        Seq::empty()
    }

    open spec fn lobby_line(&self) -> Option<Seq<char>> {
        Some("READY "@ + self.name@)
    }

    fn get_message(&mut self) -> (r: Option<String>) {
        self.ready_line()
    }

    fn wait_for_message(&mut self) -> (r: String) {
        self.decide()
    }

    fn set_cards(&mut self, cards: [Card; 2]) {
        self.set_cards_keep(cards);
    }

    fn get_cards(&self) -> (r: [Card; 2]) {
        self.cards.unwrap()
    }

    fn get_name(&self) -> (r: Option<String>) {
        Some(self.name.clone())
    }

    fn set_name(&mut self, name: String) {
        self.set_name_keep(name);
    }

    fn get_money(&self) -> (r: i32) {
        self.money
    }

    fn set_money(&mut self, money: i32) {
        self.set_money_keep(money);
    }

    fn get_fold(&self) -> (r: bool) {
        self.fold
    }

    fn set_fold(&mut self, fold: bool) {
        self.set_fold_keep(fold);
    }

    fn get_bet(&self) -> (r: i32) {
        self.bet
    }

    fn set_bet(&mut self, bet: i32) {
        self.set_bet_keep(bet);
    }

    fn bet(&mut self, bet: i32) {
        self.bet_keep(bet);
    }

    fn is_dead(&self) -> (r: bool) {
        false
    }

    fn send(&mut self, msg: &str) {
        self.recv_line(msg);
    }
}

} // verus!
