use poker::bot::Bot;
use poker::card::Card;
use poker::evaluator::{category, Category};
use poker::message::{Message, MessageType};
use poker::player::Seat;
use poker::text::{i32_dec_str, join_tokens, parse_i32, tokenize};

#[test]
fn parse_ready() {
    let m = Message::from_str(&"READY alice".to_string());
    assert!(matches!(m.get_type(), MessageType::READY));
    match m {
        Message::Ready { name } => assert_eq!(name, "alice"),
        _ => panic!("expected a ready command"),
    }
}

#[test]
fn parse_bet() {
    let m = Message::from_str(&"BET 40".to_string());
    match m {
        Message::Bet { money } => assert_eq!(money, 40),
        _ => panic!("expected a bet command"),
    }
}

#[test]
fn parse_fold() {
    assert!(matches!(Message::from_str(&"FOLD".to_string()), Message::Fold));
    assert!(matches!(Message::from_str(&"FOLD now".to_string()), Message::Fold));
}

#[test]
fn parse_unknown() {
    assert!(matches!(Message::from_str(&"HELLO".to_string()), Message::Unknown));
    assert!(matches!(Message::from_str(&"READY".to_string()), Message::Unknown));
    assert!(matches!(Message::from_str(&"BET".to_string()), Message::Unknown));
    assert!(matches!(Message::from_str(&"BET abc".to_string()), Message::Unknown));
    assert!(matches!(Message::from_str(&"BET 99999999999".to_string()), Message::Unknown));
    assert!(matches!(Message::from_str(&"".to_string()), Message::Unknown));
}

#[test]
fn parse_i32_exact() {
    assert_eq!(parse_i32("0"), Some(0));
    assert_eq!(parse_i32("40"), Some(40));
    assert_eq!(parse_i32("-45"), Some(-45));
    assert_eq!(parse_i32("+7"), Some(7));
    assert_eq!(parse_i32("2147483647"), Some(2147483647));
    assert_eq!(parse_i32("2147483648"), None);
    assert_eq!(parse_i32("-2147483648"), Some(i32::MIN));
    assert_eq!(parse_i32("-2147483649"), None);
    assert_eq!(parse_i32("00042"), Some(42));
    assert_eq!(parse_i32(""), None);
    assert_eq!(parse_i32("-"), None);
    assert_eq!(parse_i32("4 2"), None);
    assert_eq!(parse_i32("4a"), None);
}

#[test]
fn render_decimal_exact() {
    assert_eq!(i32_dec_str(0), "0");
    assert_eq!(i32_dec_str(300), "300");
    assert_eq!(i32_dec_str(-45), "-45");
    assert_eq!(i32_dec_str(i32::MIN), "-2147483648");
    assert_eq!(i32_dec_str(i32::MAX), "2147483647");
}

// Round trip: encoding a line from tokens and decoding it again recovers
// the same verb and arguments.
#[test]
fn broadcast_round_trip() {
    let tokens = vec![
        "WON".to_string(),
        "alice".to_string(),
        "150".to_string(),
        "FullHouse".to_string(),
    ];
    let line = join_tokens(&tokens);
    assert_eq!(line, "WON alice 150 FullHouse");
    let back = tokenize(&line);
    assert_eq!(back, tokens);
}

#[test]
fn roster_and_bank_lines() {
    let players = vec![Seat::Bot(Bot::new(0)), Seat::Bot(Bot::new(1))];
    assert_eq!(Message::start(&players), "START 2 BOT0 BOT1");
    assert_eq!(Message::round(300, &players), "ROUND 300 0 0");
}

#[test]
fn bot_preflop_calls_ceiling() {
    let mut b = Bot::new(3);
    assert_eq!(b.name, "BOT3");
    b.max_bet = 20;
    let line = b.decide();
    assert_eq!(line, "BET 20");
}

#[test]
fn bot_pair_target_and_fold() {
    // a pair aims at 40% of the chips in play
    let mut b = Bot::new(0);
    b.cards = Some([Card::new("Ah"), Card::new("Ad")]);
    b.shared = vec![Card::new("2a"), Card::new("7b"), Card::new("9c")];
    b.money = 80;
    b.bet = 20;
    b.max_bet = 20;
    assert_eq!(b.decide(), "BET 40");
    // a ceiling above the target folds
    b.max_bet = 41;
    assert_eq!(b.decide(), "FOLD");
}

#[test]
fn bot_tracks_broadcasts() {
    let mut b = Bot::new(0);
    b.recv_line("SBLIND alice 10");
    assert_eq!(b.max_bet, 10);
    b.recv_line("BBLIND bob 20");
    assert_eq!(b.max_bet, 20);
    b.recv_line("BET 40 alice");
    assert_eq!(b.max_bet, 40);
    b.recv_line("CARD 7h");
    assert_eq!(b.shared.len(), 1);
    b.recv_line("CARDS Ah Kd");
    assert_eq!(b.shared.len(), 0);
    b.recv_line("garbage line");
    assert_eq!(b.max_bet, 40);
}

#[test]
fn strength_class_categories() {
    assert!(matches!(category(&1), Category::StraightFlush));
    assert!(matches!(category(&166), Category::FourOfAKind));
    assert!(matches!(category(&322), Category::FullHouse));
    assert!(matches!(category(&1599), Category::Flush));
    assert!(matches!(category(&1605), Category::Straight));
    assert!(matches!(category(&2463), Category::ThreeOfAKind));
    assert!(matches!(category(&3325), Category::TwoPair));
    assert!(matches!(category(&6185), Category::Pair));
    assert!(matches!(category(&7462), Category::HighCard));
    assert!(Category::StraightFlush < Category::HighCard);
}
