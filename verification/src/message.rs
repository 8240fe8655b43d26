//! The line protocol codec: parsing client commands and composing server
//! broadcast lines.
//!
//! A line is a verb followed by space-separated arguments. Unrecognized
//! verbs, missing arguments and unconvertible numbers all parse to the
//! unknown command, which callers log and ignore.

use vstd::prelude::*;

use crate::player::Seat;
use crate::text::{dec_digits, i32_str_val, int_dec, join_sp, split_sp, token_views, valid_i32_str};

verus! {

/// The tokens of the lobby-start roster line: the participant count and
/// every display name, in seat order.
pub open spec fn start_tokens(ps: Seq<Seat>) -> Seq<Seq<char>> {
    seq!["START"@, dec_digits(ps.len() as int)] + Seq::new(ps.len(), |i: int| ps[i].model().name.unwrap())
}

/// The tokens of the per-hand bank line: the pot and every stack, in seat
/// order.
pub open spec fn round_tokens(bank: int, ps: Seq<Seat>) -> Seq<Seq<char>> {
    seq!["ROUND"@, int_dec(bank)] + Seq::new(ps.len(), |i: int| int_dec(ps[i].model().money))
}

/// The token holds no space, so it survives a line round trip whole.
pub open spec fn space_free(t: Seq<char>) -> bool {
    forall|i: int| 0 <= i < t.len() ==> #[trigger] t[i] != ' '
}

/// Round trip for the lobby-start roster line: splitting the composed line
/// recovers exactly its verb and arguments, provided no display name
/// carries a space.
pub proof fn lemma_roster_round_trip(ps: Seq<Seat>)
    requires
        forall|i: int|
            0 <= i < ps.len() ==> (#[trigger] ps[i]).model().name is Some && space_free(
                ps[i].model().name.unwrap(),
            ),
    ensures
        split_sp(join_sp(start_tokens(ps))) == start_tokens(ps),
{
    let ts = start_tokens(ps);
    assert forall|k: int, i: int|
        0 <= k < ts.len() && 0 <= i < ts[k].len() implies #[trigger] ts[k][i] != ' ' by {
        if k == 0 {
            reveal_strlit("START");
            assert("START"@.len() == 5);
            if i == 0 {
                assert("START"@[0] != ' ');
            } else if i == 1 {
                assert("START"@[1] != ' ');
            } else if i == 2 {
                assert("START"@[2] != ' ');
            } else if i == 3 {
                assert("START"@[3] != ' ');
            } else {
                assert("START"@[4] != ' ');
            }
        } else if k == 1 {
            crate::text::lemma_dec_digits_shape(ps.len() as int);
        } else {
            assert(ts[k] == ps[k - 2].model().name.unwrap());
            assert(space_free(ps[k - 2].model().name.unwrap()));
        }
    }
    crate::text::lemma_join_split_round_trip(ts);
}

/// Round trip for the per-hand bank line: splitting the composed line
/// recovers exactly its verb and arguments.
pub proof fn lemma_bank_round_trip(bank: int, ps: Seq<Seat>)
    ensures
        split_sp(join_sp(round_tokens(bank, ps))) == round_tokens(bank, ps),
{
    let ts = round_tokens(bank, ps);
    assert forall|k: int, i: int|
        0 <= k < ts.len() && 0 <= i < ts[k].len() implies #[trigger] ts[k][i] != ' ' by {
        if k == 0 {
            reveal_strlit("ROUND");
            assert("ROUND"@.len() == 5);
            if i == 0 {
                assert("ROUND"@[0] != ' ');
            } else if i == 1 {
                assert("ROUND"@[1] != ' ');
            } else if i == 2 {
                assert("ROUND"@[2] != ' ');
            } else if i == 3 {
                assert("ROUND"@[3] != ' ');
            } else {
                assert("ROUND"@[4] != ' ');
            }
        } else if k == 1 {
            crate::text::lemma_int_dec_shape(bank);
        } else {
            assert(ts[k] == int_dec(ps[k - 2].model().money));
            crate::text::lemma_int_dec_shape(ps[k - 2].model().money);
        }
    }
    crate::text::lemma_join_split_round_trip(ts);
}

/// The kinds of command the protocol knows.
#[derive(Debug, Clone, Copy, PartialEq, Eq, Structural)]
pub enum MessageType {
    UNKNOWN,
    READY,
    BET,
    FOLD,
}

/// A parsed client command.
#[derive(Debug, Clone)]
pub enum Message {
    /// An unrecognized or malformed line.
    Unknown,
    /// `READY <name>`: bind a display name in the lobby.
    Ready { name: String },
    /// `BET <amount>`: wager up to the announced amount.
    Bet { money: i32 },
    /// `FOLD`: leave the hand.
    Fold,
}

impl Message {
    /// The kind of this command.
    pub fn get_type(&self) -> (t: MessageType)
        ensures
            t == (match self {
                Message::Unknown => MessageType::UNKNOWN,
                Message::Ready { .. } => MessageType::READY,
                Message::Bet { .. } => MessageType::BET,
                Message::Fold => MessageType::FOLD,
            }),
    {
        match self {
            Message::Unknown => MessageType::UNKNOWN,
            Message::Ready { .. } => MessageType::READY,
            Message::Bet { .. } => MessageType::BET,
            Message::Fold => MessageType::FOLD,
        }
    }

    /// Parses one line. The first token picks the verb; `READY` takes the
    /// next token as a name, `BET` requires the next token to be a decimal
    /// `i32`, `FOLD` takes no arguments, and everything else — a missing
    /// name, an unconvertible amount, an unknown verb — is `Unknown`.
    pub fn from_str(msg: &String) -> (m: Message)
        ensures
            ({
                let ts = split_sp(msg@);
                match m {
                    Message::Ready { name } => ts[0] == "READY"@ && ts.len() >= 2 && name@
                        == ts[1],
                    Message::Bet { money } => ts[0] == "BET"@ && ts.len() >= 2 && valid_i32_str(
                        ts[1],
                    ) && money as int == i32_str_val(ts[1]),
                    Message::Fold => ts[0] == "FOLD"@,
                    Message::Unknown => !(ts[0] == "FOLD"@) && !(ts[0] == "READY"@ && ts.len()
                        >= 2) && !(ts[0] == "BET"@ && ts.len() >= 2 && valid_i32_str(ts[1])),
                }
            }),
    {
        let args = crate::text::tokenize(msg.as_str());
        proof {
            reveal_strlit("READY");
            reveal_strlit("BET");
            reveal_strlit("FOLD");
            assert(args@[0]@ == split_sp(msg@)[0]);
            if args@.len() >= 2 {
                assert(args@[1]@ == split_sp(msg@)[1]);
            }
        }
        let ready = String::from_str("READY");
        let bet = String::from_str("BET");
        let fold = String::from_str("FOLD");
        if args[0] == ready {
            if args.len() >= 2 {
                Message::Ready { name: args[1].clone() }
            } else {
                Message::Unknown
            }
        } else if args[0] == bet {
            if args.len() >= 2 {
                match crate::text::parse_i32(args[1].as_str()) {
                    Some(v) => Message::Bet { money: v },
                    None => Message::Unknown,
                }
            } else {
                Message::Unknown
            }
        } else if args[0] == fold {
            Message::Fold
        } else {
            Message::Unknown
        }
    }

    /// Composes the lobby-start roster broadcast.
    pub fn start(players: &Vec<Seat>) -> (r: String)
        requires
            forall|i: int| 0 <= i < players@.len() ==> (#[trigger] players@[i]).model().name is Some,
        ensures
            r@ == join_sp(start_tokens(players@)),
    {
        let mut tokens: Vec<String> = Vec::new();
        tokens.push(String::from_str("START"));
        tokens.push(crate::text::usize_dec_str(players.len()));
        let mut i: usize = 0;
        while i < players.len()
            invariant
                i <= players@.len(),
                forall|k: int|
                    0 <= k < players@.len() ==> (#[trigger] players@[k]).model().name is Some,
                tokens@.len() == i + 2,
                tokens@[0]@ == "START"@,
                tokens@[1]@ == dec_digits(players@.len() as int),
                forall|k: int|
                    2 <= k < i + 2 ==> (#[trigger] tokens@[k])@ == players@[k - 2].model().name.unwrap(),
            decreases players@.len() - i,
        {
            match players[i].get_name() {
                Some(n) => {
                    tokens.push(n);
                },
                None => {
                    proof {
                        assert(false);
                    }
                },
            }
            i += 1;
        }
        let r = crate::text::join_tokens(&tokens);
        proof {
            assert forall|k: int|
                0 <= k < tokens@.len() implies token_views(tokens@)[k] == start_tokens(players@)[k] by {
                if k >= 2 {
                    assert(tokens@[k]@ == players@[k - 2].model().name.unwrap());
                }
            }
            assert(token_views(tokens@) =~~= start_tokens(players@));
        }
        r
    }

    /// Composes the per-hand bank-and-stacks broadcast.
    pub fn round(bank: i32, players: &Vec<Seat>) -> (r: String)
        ensures
            r@ == join_sp(round_tokens(bank as int, players@)),
    {
        let mut tokens: Vec<String> = Vec::new();
        tokens.push(String::from_str("ROUND"));
        tokens.push(crate::text::i32_dec_str(bank));
        let mut i: usize = 0;
        while i < players.len()
            invariant
                i <= players@.len(),
                tokens@.len() == i + 2,
                tokens@[0]@ == "ROUND"@,
                tokens@[1]@ == int_dec(bank as int),
                forall|k: int|
                    2 <= k < i + 2 ==> (#[trigger] tokens@[k])@ == int_dec(
                        players@[k - 2].model().money,
                    ),
            decreases players@.len() - i,
        {
            tokens.push(crate::text::i32_dec_str(players[i].get_money()));
            i += 1;
        }
        let r = crate::text::join_tokens(&tokens);
        proof {
            assert forall|k: int|
                0 <= k < tokens@.len() implies token_views(tokens@)[k] == round_tokens(
                bank as int,
                players@,
            )[k] by {
                if k >= 2 {
                    assert(tokens@[k]@ == int_dec(players@[k - 2].model().money));
                }
            }
            assert(token_views(tokens@) =~~= round_tokens(bank as int, players@));
        }
        r
    }
}

} // verus!
