use poker::card::Card;
use poker::hand::{Hand, HandType};

#[test]
fn test_card_order() {
    assert!(Card::new("2♠") == Card::new("2♠"));
    assert!(Card::new("2♠") == Card::new("2♥"));
    assert!(Card::new("2♠") != Card::new("3♠"));
    assert!(Card::new("2♠") != Card::new("3♥"));

    assert!(Card::new("5♠") > Card::new("3♥"));
    assert!(Card::new("4♠") < Card::new("7♥"));

    assert!(Card::new("4♠") <= Card::new("4♠"));
    assert!(Card::new("4♠") >= Card::new("4♠"));

    assert!(Card::new("4♠") <= Card::new("4♥"));
    assert!(Card::new("4♠") >= Card::new("4♥"));

    assert!(Card::new("K♠") == Card::new("K♠"));
    assert!(Card::new("A♠") == Card::new("A♥"));

    assert!(Card::new("9♠") < Card::new("T♠"));
    assert!(Card::new("T♠") < Card::new("J♠"));
    assert!(Card::new("J♠") < Card::new("D♠"));
    assert!(Card::new("D♠") < Card::new("K♠"));
    assert!(Card::new("K♠") < Card::new("A♠"));
}

#[test]
fn test_hand_order() {
    let pair2 = Hand::test_new(HandType::Pair, vec!["2♠", "2♥"]);
    let pair3 = Hand::test_new(HandType::Pair, vec!["3♠", "3♥"]);
    let tri2 = Hand::test_new(HandType::ThreeOfAKind, vec!["2♠", "2♥", "2♥"]);

    assert!(pair2 == pair2);
    assert!(pair2 >= pair2);
    assert!(pair2 <= pair2);

    assert!(pair2 != pair3);
    assert!(pair2 < pair3);
    assert!(pair3 > pair2);

    assert!(pair3 != tri2);
    assert!(tri2 > pair3);
    assert!(pair3 < tri2);

    assert!(pair3 != tri2);
    assert!(tri2 > pair3);
    assert!(pair3 < tri2);
}

#[test]
fn test_hand_find() {
    let sflush = Hand::find_all(
        0,
        &["Aa", "Ka", "Da", "Ja", "Ta"].iter().map(|s| Card::new(s)).collect::<Vec<Card>>()[..],
    );
    assert!(sflush.iter().any(|hand| hand.hand_type == HandType::StraightFlush));

    let four = Hand::find_all(
        0,
        &["Aa", "Ab", "Ac", "Ad"].iter().map(|s| Card::new(s)).collect::<Vec<Card>>()[..],
    );
    assert!(four.iter().any(|hand| hand.hand_type == HandType::FourOfAKind));

    let fullhouse = Hand::find_all(
        0,
        &["Aa", "Ab", "Ac", "Ka", "Kb"].iter().map(|s| Card::new(s)).collect::<Vec<Card>>()[..],
    );
    assert!(fullhouse.iter().any(|hand| hand.hand_type == HandType::FullHouse));

    let flush = Hand::find_all(
        0,
        &["Aa", "Ta", "6a", "5a", "4a"].iter().map(|s| Card::new(s)).collect::<Vec<Card>>()[..],
    );
    assert!(flush.iter().any(|hand| hand.hand_type == HandType::Flush));

    let straight = Hand::find_all(
        0,
        &["9a", "8a", "7b", "6c", "5a"].iter().map(|s| Card::new(s)).collect::<Vec<Card>>()[..],
    );
    assert!(straight.iter().any(|hand| hand.hand_type == HandType::Straight));

    let three = Hand::find_all(
        0,
        &["9a", "9b", "9c"].iter().map(|s| Card::new(s)).collect::<Vec<Card>>()[..],
    );
    assert!(three.iter().any(|hand| hand.hand_type == HandType::ThreeOfAKind));

    let two_pair = Hand::find_all(
        0,
        &["9a", "9b", "Ta", "Tb"].iter().map(|s| Card::new(s)).collect::<Vec<Card>>()[..],
    );
    assert!(two_pair.iter().any(|hand| hand.hand_type == HandType::TwoPair));

    let pair = Hand::find_all(
        0,
        &["9a", "9b"].iter().map(|s| Card::new(s)).collect::<Vec<Card>>()[..],
    );
    assert!(pair.iter().any(|hand| hand.hand_type == HandType::Pair));

    let card = Hand::find_all(
        0,
        &["Ta"].iter().map(|s| Card::new(s)).collect::<Vec<Card>>()[..],
    );
    assert!(card.iter().any(|hand| hand.hand_type == HandType::HighCard));
}

// The straight-flush scenario: an ace-high run in one suit classifies with
// category StraightFlush.
#[test]
fn straight_flush_presence() {
    let cards: Vec<Card> = ["Ah", "Kh", "Dh", "Jh", "Th"].iter().map(|s| Card::new(s)).collect();
    let hands = Hand::find_all(0, &cards[..]);
    assert!(hands.iter().any(|hand| hand.hand_type == HandType::StraightFlush));
}

// The four-of-a-kind scenario: four aces plus any kickers contain a hand
// with category FourOfAKind.
#[test]
fn four_of_a_kind_presence() {
    let cards: Vec<Card> =
        ["Ah", "Ad", "Ac", "As", "7b", "2c", "9d"].iter().map(|s| Card::new(s)).collect();
    let hands = Hand::find_all(0, &cards[..]);
    assert!(hands.iter().any(|hand| hand.hand_type == HandType::FourOfAKind));
}

// The returned catalogue holds no two hands with the same category and
// top-card rank.
#[test]
fn catalogue_no_duplicates() {
    let cards: Vec<Card> =
        ["Ah", "Ad", "Kc", "Ks", "7b", "7c", "9d"].iter().map(|s| Card::new(s)).collect();
    let hands = Hand::find_all(0, &cards[..]);
    for i in 0..hands.len() {
        for j in 0..hands.len() {
            if i != j {
                assert!(
                    !(hands[i].hand_type == hands[j].hand_type
                        && hands[i].cards[0] == hands[j].cards[0])
                );
            }
        }
    }
}

// No wraparound: the lowest rank has no predecessor, so 2-3-4-5 plus an
// ace yields no straight.
#[test]
fn straight_no_wraparound() {
    let cards: Vec<Card> =
        ["5a", "4b", "3c", "2d", "Aa"].iter().map(|s| Card::new(s)).collect();
    let hands = Hand::find_all(0, &cards[..]);
    assert!(!hands.iter().any(|hand| hand.hand_type == HandType::Straight));
    assert!(!hands.iter().any(|hand| hand.hand_type == HandType::StraightFlush));
}

#[test]
fn deck_has_all_cards() {
    let deck = Card::generate("23456789TJDKA", "♠♥♦♣");
    assert_eq!(deck.len(), 52);
}
