use poker::card::Card;
use poker::human::HumanSeat;
use poker::player::{Player, Seat};
use poker::server::ServerData;
use poker::table::{BetStep, Table};

fn feed(table: &mut Table, seat: usize, line: &str) {
    match &mut table.server.players[seat] {
        Seat::Human(h) => h.push_line(line.to_string()),
        Seat::Bot(_) => panic!("fed a line to a heuristic seat"),
    }
}

fn run_street(table: &mut Table, start: isize) {
    let mut st = table.street_begin(start);
    while !table.street_done(&st) {
        match table.bet_step(&mut st) {
            BetStep::Acted => {}
            BetStep::Finished => break,
            BetStep::NeedInput(s) => panic!("seat {} has no line queued", s),
            BetStep::Violation(_) => panic!("Bet is too small!"),
        }
    }
}

fn total_chips(table: &Table) -> i64 {
    let mut total = table.bank as i64;
    for p in table.server.players.iter() {
        total += p.get_money() as i64;
        total += p.get_bet() as i64;
    }
    total
}

fn named_human(name: &str, conn: usize) -> Seat {
    let mut h = HumanSeat::new(conn);
    h.name = Some(name.to_string());
    Seat::Human(h)
}

#[test]
fn test_finalize() {
    let shared = vec![
        Card::new("Ta"),
        Card::new("5a"),
        Card::new("8a"),
        Card::new("3b"),
        Card::new("Kb"),
    ];
    let c1 = [Card::new("Tb"), Card::new("5d")];
    let c2 = [Card::new("Tc"), Card::new("4c")];

    let mut p1 = HumanSeat::new(0);
    let mut p2 = HumanSeat::new(1);

    p1.set_cards(c1);
    p1.set_money(10);
    p1.set_bet(5);
    p2.set_cards(c2);
    p2.set_money(10);
    p2.set_bet(5);

    let server_data = ServerData { started: true, players: vec![Seat::Human(p1), Seat::Human(p2)] };
    let mut table = Table {
        server: server_data,
        bank: 300,
        shared,
        shared_visible: 0,
        max_bet: 0,
        dealer: 0,
        players: 2,
    };

    let before = total_chips(&table);
    table.finalize();
    assert_eq!(total_chips(&table), before);
}

#[test]
pub fn table_test() {
    let server_data = ServerData {
        started: true,
        players: vec![Seat::Human(HumanSeat::new(0)), Seat::Human(HumanSeat::new(1))],
    };
    let mut table = Table::new(server_data);

    feed(&mut table, 0, "READY p1");
    feed(&mut table, 1, "READY p2");
    assert!(table.wait_for_players(2));
    table.start(300, 0, Some(0)); // seat p1 is the dealer
    table.round();
    feed(&mut table, 0, "BET 30");
    feed(&mut table, 1, "BET 40");
    feed(&mut table, 0, "BET 40");
    table.first_bet(10, 20);
    run_street(&mut table, 3);
    table.show_card();
    table.show_card();
    table.show_card();
    feed(&mut table, 0, "BET 40");
    feed(&mut table, 1, "BET 40");
    run_street(&mut table, 1);
    table.show_card();
    feed(&mut table, 0, "BET 100");
    feed(&mut table, 1, "BET 150");
    feed(&mut table, 0, "BET 150");
    run_street(&mut table, 1);
    table.show_card();
    feed(&mut table, 0, "BET 150");
    feed(&mut table, 1, "FOLD");
    run_street(&mut table, 1);
    table.finalize();
    // one hand moves chips around but never creates or destroys them
    assert_eq!(total_chips(&table), 600);
}

// The betting-street termination scenario: two active participants, dealer
// seat 0, blinds 10/20; once both have matched 40 the street ends without
// a third prompt to either.
#[test]
fn street_ends_without_third_prompt() {
    let server_data =
        ServerData { started: true, players: vec![named_human("p1", 0), named_human("p2", 1)] };
    let mut table = Table::new(server_data);
    table.players = 2;
    table.dealer = 0;
    for p in table.server.players.iter_mut() {
        match p {
            Seat::Human(h) => h.set_money(300),
            Seat::Bot(_) => {}
        }
    }
    table.first_bet(10, 20);
    // dealer 0: seat 1 posted the small blind, seat 0 the big blind
    feed(&mut table, 1, "BET 40");
    feed(&mut table, 0, "BET 40");
    run_street(&mut table, 3);
    // every prompt is broadcast; count them in one participant's feed
    let mut moves = 0;
    match &mut table.server.players[0] {
        Seat::Human(h) => {
            for line in h.take_outbox() {
                if line.starts_with("MOVE ") {
                    moves += 1;
                }
            }
        }
        Seat::Bot(_) => {}
    }
    assert_eq!(moves, 2);
    // and both queues are drained: nobody was asked again
    match &table.server.players[0] {
        Seat::Human(h) => assert_eq!(h.inbox.len(), 0),
        Seat::Bot(_) => {}
    }
    match &table.server.players[1] {
        Seat::Human(h) => assert_eq!(h.inbox.len(), 0),
        Seat::Bot(_) => {}
    }
}

// The side-pot scenario: an all-in participant with wager 50 among three
// seats is paid exactly its cap of 150 from a 400-chip pot, not an even
// share, when it co-wins by a hand tie.
#[test]
fn side_pot_caps_all_in_winner() {
    let shared = vec![
        Card::new("7a"),
        Card::new("8b"),
        Card::new("9c"),
        Card::new("Jd"),
        Card::new("Ae"),
    ];
    let mut a = HumanSeat::new(0);
    a.name = Some("A".to_string());
    a.set_cards([Card::new("Af"), Card::new("4a")]);
    a.set_money(0); // all-in
    a.set_bet(50);
    let mut b = HumanSeat::new(1);
    b.name = Some("B".to_string());
    b.set_cards([Card::new("Ag"), Card::new("4b")]);
    b.set_money(5);
    b.set_bet(25);
    let mut c = HumanSeat::new(2);
    c.name = Some("C".to_string());
    c.set_cards([Card::new("2c"), Card::new("3d")]);
    c.set_money(5);
    c.set_bet(25);
    c.set_fold(true);

    let server_data = ServerData {
        started: true,
        players: vec![Seat::Human(a), Seat::Human(b), Seat::Human(c)],
    };
    let mut table = Table {
        server: server_data,
        bank: 300, // 300 + 50 + 25 + 25 wagered = a 400-chip pot
        shared,
        shared_visible: 5,
        max_bet: 0,
        dealer: 0,
        players: 3,
    };
    let before = total_chips(&table);
    table.finalize();
    assert_eq!(total_chips(&table), before);
    // A and B tie; the even split would be 200 each, but A is capped at
    // its wager times the seat count: 50 * 3 = 150
    assert_eq!(table.server.players[0].get_money(), 150);
    assert_eq!(table.server.players[1].get_money(), 205);
    // the folded seat gains nothing
    assert_eq!(table.server.players[2].get_money(), 5);
    assert_eq!(table.bank, 50);
}

// The last-participant-standing scenario: everyone else folded, so the
// remaining participant is paid the whole pot with no hand comparison.
#[test]
fn last_standing_takes_whole_pot() {
    let shared = vec![
        Card::new("7a"),
        Card::new("8b"),
        Card::new("9c"),
        Card::new("Jd"),
        Card::new("Ae"),
    ];
    let mut a = HumanSeat::new(0);
    a.name = Some("A".to_string());
    a.set_cards([Card::new("2f"), Card::new("4a")]);
    a.set_money(10);
    a.set_bet(20);
    let mut b = HumanSeat::new(1);
    b.name = Some("B".to_string());
    b.set_cards([Card::new("Kg"), Card::new("Kb")]);
    b.set_money(40);
    b.set_bet(30);
    b.set_fold(true);

    let server_data =
        ServerData { started: true, players: vec![Seat::Human(a), Seat::Human(b)] };
    let mut table = Table {
        server: server_data,
        bank: 100, // 100 + 20 + 30 wagered = a 150-chip pot
        shared,
        shared_visible: 5,
        max_bet: 0,
        dealer: 0,
        players: 2,
    };
    table.finalize();
    assert_eq!(table.server.players[0].get_money(), 160);
    assert_eq!(table.server.players[1].get_money(), 40);
    assert_eq!(table.bank, 0);
    // the payout and the revealed hole cards were announced, newest first
    match &mut table.server.players[1] {
        Seat::Human(h) => {
            let sent = h.take_outbox();
            assert_eq!(
                sent,
                vec![
                    "ENDCARDS B Kg Kb".to_string(),
                    "ENDCARDS A 2f 4a".to_string(),
                    "WON A 150 last_standing".to_string(),
                ]
            );
        }
        Seat::Bot(_) => panic!("expected the human seat"),
    }
}

// A lobby pass binds names from queued lines, ignores a second READY, and
// drops a participant whose connection died before the match.
#[test]
fn lobby_admission() {
    let server_data = ServerData {
        started: false,
        players: vec![
            Seat::Human(HumanSeat::new(0)),
            Seat::Human(HumanSeat::new(1)),
            Seat::Human(HumanSeat::new(2)),
        ],
    };
    let mut table = Table::new(server_data);
    feed(&mut table, 0, "READY alice");
    feed(&mut table, 0, "READY impostor");
    feed(&mut table, 1, "nonsense");
    match &mut table.server.players[2] {
        Seat::Human(h) => h.set_dead(),
        Seat::Bot(_) => {}
    }
    assert!(!table.wait_for_players(2));
    assert_eq!(table.server.players.len(), 2);
    match &table.server.players[0] {
        Seat::Human(h) => assert_eq!(h.name.as_deref(), Some("alice")),
        Seat::Bot(_) => panic!("expected the named participant"),
    }
    feed(&mut table, 1, "READY bob");
    assert!(table.wait_for_players(2));
}

// A full two-hand match against one heuristic participant conserves chips.
#[test]
fn match_with_heuristic_conserves_chips() {
    let server_data =
        ServerData { started: true, players: vec![Seat::Human(HumanSeat::new(0))] };
    let mut table = Table::new(server_data);
    feed(&mut table, 0, "READY alice");
    assert!(table.wait_for_players(1));
    table.start(300, 1, Some(0));
    assert_eq!(total_chips(&table), 600);
    table.round();
    table.first_bet(10, 20);
    // the human folds immediately; the heuristic acts by itself
    feed(&mut table, 0, "FOLD");
    run_street(&mut table, 3);
    table.show_card();
    table.show_card();
    table.show_card();
    run_street(&mut table, 1);
    table.show_card();
    run_street(&mut table, 1);
    table.show_card();
    run_street(&mut table, 1);
    table.finalize();
    assert_eq!(total_chips(&table), 600);
    assert!(!table.end());
}
