//! The network-backed participant's seat state: its queues and flags.
//!
//! The transport itself lives outside the library. A reader loop pushes
//! every received line into `inbox` with `push_line` and flips `dead` on a
//! read error or an orderly close with `set_dead`; the writer drains
//! `outbox` with `take_outbox` and puts each line on the wire.

use vstd::prelude::*;

use crate::card::Card;
use crate::player::{Player, PlayerModel};

verus! {

/// A network-backed participant: name, chips, wager, flags, hole cards,
/// the lines received from it and the lines owed to it.
pub struct HumanSeat {
    /// The connection key the embedding uses to find the transport.
    pub conn: usize,
    pub name: Option<String>,
    pub cards: Option<[Card; 2]>,
    pub money: i32,
    pub fold: bool,
    pub bet: i32,
    pub inbox: Vec<String>,
    pub outbox: Vec<String>,
    pub dead: bool,
}

impl HumanSeat {
    /// A fresh seat for a new connection.
    pub fn new(conn: usize) -> (h: HumanSeat)
        ensures
            h.model() == (PlayerModel {
                name: None,
                cards: None,
                money: 0,
                bet: 0,
                fold: false,
                dead: false,
            }),
            h.inbox@.len() == 0,
            h.outbox@.len() == 0,
            h.conn == conn,
    {
        HumanSeat {
            conn,
            name: None,
            cards: None,
            money: 0,
            fold: false,
            bet: 0,
            inbox: Vec::new(),
            outbox: Vec::new(),
            dead: false,
        }
    }

    /// Queues one received line (called by the reader side).
    pub fn push_line(&mut self, line: String)
        ensures
            final(self).model() == old(self).model(),
            final(self).cards == old(self).cards,
            final(self).inbox@ == old(self).inbox@.push(line),
            final(self).outbox == old(self).outbox,
    {
        self.inbox.push(line);
    }

    /// Marks the connection gone (called by the reader side).
    pub fn set_dead(&mut self)
        ensures
            final(self).model() == (PlayerModel { dead: true, ..old(self).model() }),
            final(self).cards == old(self).cards,
    {
        self.dead = true;
    }

    /// Hands the owed outbound lines over for delivery and clears them.
    pub fn take_outbox(&mut self) -> (r: Vec<String>)
        ensures
            final(self).model() == old(self).model(),
            final(self).cards == old(self).cards,
            r == old(self).outbox,
            final(self).outbox@.len() == 0,
    {
        let mut out: Vec<String> = Vec::new();
        core::mem::swap(&mut out, &mut self.outbox);
        out
    }

    /// Queues one outbound line.
    pub fn push_outbox(&mut self, msg: &str)
        ensures
            final(self).model() == old(self).model(),
            final(self).cards == old(self).cards,
            final(self).inbox == old(self).inbox,
            final(self).conn == old(self).conn,
            final(self).outbox@.len() == old(self).outbox@.len() + 1,
            final(self).outbox@.last()@ == msg@,
            forall|k: int|
                0 <= k < old(self).outbox@.len() ==> final(self).outbox@[k] == old(
                    self,
                ).outbox@[k],
    {
        self.outbox.push(msg.to_owned());
    }

    /// Whether a received line is queued.
    pub fn has_line(&self) -> (r: bool)
        ensures
            r == (self.inbox@.len() > 0),
    {
        self.inbox.len() > 0
    }

    /// Pops the oldest queued line.
    pub fn take_line(&mut self) -> (r: String)
        requires
            old(self).inbox@.len() > 0,
        ensures
            final(self).model() == old(self).model(),
            final(self).cards == old(self).cards,
            final(self).outbox == old(self).outbox,
            final(self).conn == old(self).conn,
            r == old(self).inbox@[0],
            final(self).inbox@ == old(self).inbox@.drop_first(),
    {
        let r = self.inbox.remove(0);
        proof {
            assert(self.inbox@ =~= old(self).inbox@.drop_first());
        }
        r
    }
}

impl Player for HumanSeat {
    open spec fn model(&self) -> PlayerModel {
        PlayerModel {
            name: match self.name {
                Some(n) => Some(n@),
                None => None,
            },
            cards: self.cards,
            money: self.money as int,
            bet: self.bet as int,
            fold: self.fold,
            dead: self.dead,
        }
    }

    open spec fn can_reply(&self) -> bool {
        self.inbox@.len() > 0 || self.dead
    }

    open spec fn reply_line(&self) -> Seq<char> {
        if self.inbox@.len() > 0 {
            self.inbox@[0]@
        } else {
            "FOLD"@
        }
    }

    open spec fn queued_lines(&self) -> Seq<Seq<char>> {
        crate::table::line_views(self.inbox@)
    }

    open spec fn owed_lines(&self) -> Seq<Seq<char>> {
        crate::table::line_views(self.outbox@)
    }

    open spec fn lobby_line(&self) -> Option<Seq<char>> {
        if self.inbox@.len() > 0 {
            Some(self.inbox@[0]@)
        } else {
            None
        }
    }

    fn get_message(&mut self) -> (r: Option<String>) {
        if self.inbox.len() < 1 {
            None
        } else {
            let ghost inb = self.inbox@;
            let line = self.inbox.remove(0);
            proof {
                assert(crate::table::line_views(self.inbox@) =~~= crate::table::line_views(
                    inb,
                ).drop_first());
            }
            Some(line)
        }
    }

    fn wait_for_message(&mut self) -> (r: String) {
        if self.inbox.len() >= 1 {
            let ghost inb = self.inbox@;
            let line = self.inbox.remove(0);
            proof {
                assert(crate::table::line_views(self.inbox@) =~~= crate::table::line_views(
                    inb,
                ).drop_first());
            }
            line
        } else {
            String::from_str("FOLD")
        }
    }

    fn set_cards(&mut self, cards: [Card; 2]) {
        self.cards = Some(cards);
    }

    fn get_cards(&self) -> (r: [Card; 2]) {
        self.cards.unwrap()
    }

    fn get_name(&self) -> (r: Option<String>) {
        match &self.name {
            Some(n) => Some(n.clone()),
            None => None,
        }
    }

    fn set_name(&mut self, name: String) {
        self.name = Some(name);
    }

    fn get_money(&self) -> (r: i32) {
        self.money
    }

    fn set_money(&mut self, money: i32) {
        self.money = money;
    }

    fn get_fold(&self) -> (r: bool) {
        self.fold
    }

    fn set_fold(&mut self, fold: bool) {
        self.fold = fold;
    }

    fn get_bet(&self) -> (r: i32) {
        self.bet
    }

    fn set_bet(&mut self, bet: i32) {
        self.bet = bet;
    }

    fn bet(&mut self, bet: i32) {
        if bet - self.bet > self.money {
            self.bet = self.bet + self.money;
            self.money = 0;
        } else {
            self.money = self.money - (bet - self.bet);
            self.bet = bet;
        }
    }

    fn is_dead(&self) -> (r: bool) {
        self.dead
    }

    fn send(&mut self, msg: &str) {
        self.push_outbox(msg);
    }
}

} // verus!
