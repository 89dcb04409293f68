use std::collections::HashMap;

use hashcards::card::Card;
use hashcards::card::CardContent;
use hashcards::card_hash::CardHash;
use hashcards::date::Date;
use hashcards::date::Timestamp;
use hashcards::drill::bury_siblings;
use hashcards::drill::due_cards;
use hashcards::drill::filter_deck;
use hashcards::drill::unknown_hashes;
use hashcards::drill::AnswerControls;
use hashcards::drill::ServerConfig;

const ANSWER: &str = "answer";

fn base_config() -> ServerConfig {
    ServerConfig {
        directory: None,
        host: "127.0.0.1".to_string(),
        resource_hostname: "localhost".to_string(),
        port: 0,
        session_started_at: Timestamp { date: Date::new(739_756), millis: 0 },
        card_limit: None,
        new_card_limit: None,
        deck_filter: None,
        shuffle: false,
        answer_controls: AnswerControls::Full,
        bury_siblings: false,
    }
}

struct CaseCard {
    label: String,
    card: Card,
    is_new: bool,
}

fn card(label: &'static str, deck: &'static str, is_new: bool) -> CaseCard {
    CaseCard {
        label: label.to_string(),
        card: Card::new(
            deck.to_string(),
            "test.md".to_string(),
            (0, 0),
            CardContent::new_basic(label, ANSWER),
        ),
        is_new,
    }
}

// we can't reuse label for card content for cloze cards, because we need to find right
// card by label in HashMap later
fn cloze_card(label: &str, prompt: &str, start: usize, deck: &str, is_new: bool) -> CaseCard {
    CaseCard {
        label: label.to_string(),
        card: Card::new(
            deck.to_string(),
            "test.md".to_string(),
            (0, 0),
            CardContent::new_cloze(prompt, start, start + 1),
        ),
        is_new,
    }
}

struct Case {
    name: &'static str,
    cards: Vec<CaseCard>,
    card_limit: Option<usize>,
    new_card_limit: Option<usize>,
    deck_filter: Option<String>,
    bury_siblings: bool,
    /// Labels of the cards expected to survive filtering.
    expected: &'static [&'static str],
}

/// check `filter_deck` behaviour across a range of decks.
#[test]
fn test_filter_deck() {
    let cases = [
        Case {
            name: "pull all cards",
            cards: vec![
                card("first", "first", false),
                card("second", "second", false),
                card("new", "first", true),
                cloze_card("cloze", "cloze", 0, "first", false),
            ],
            card_limit: None,
            new_card_limit: None,
            deck_filter: None,
            bury_siblings: false,
            expected: &["first", "second", "new", "cloze"],
        },
        Case {
            name: "pull all cards from specific deck",
            cards: vec![
                card("first", "first", false),
                card("second", "second", false),
                card("new", "first", true),
            ],
            card_limit: None,
            new_card_limit: None,
            deck_filter: Some("first".to_string()),
            bury_siblings: false,
            expected: &["first", "new"],
        },
        Case {
            name: "pull N cards",
            cards: vec![
                card("first", "first", false),
                card("second", "second", false),
                card("third", "third", false),
            ],
            card_limit: Some(2),
            new_card_limit: None,
            deck_filter: None,
            bury_siblings: false,
            expected: &["first", "second"],
        },
        Case {
            name: "pull N new cards",
            cards: vec![
                card("first", "first", false),
                card("second", "second", false),
                card("new", "first", true),
                card("new2", "first", true),
                card("new3", "first", true),
            ],
            card_limit: None,
            new_card_limit: Some(2),
            deck_filter: None,
            bury_siblings: false,
            expected: &["first", "second", "new", "new2"],
        },
        Case {
            name: "bury all siblings",
            cards: vec![
                cloze_card("cloze0", "cloze", 0, "first", false),
                cloze_card("cloze1", "cloze", 1, "first", false),
                cloze_card("cloze2", "cloze", 2, "first", false),
                cloze_card("cloze3", "cloze", 3, "first", false),
            ],
            card_limit: None,
            new_card_limit: None,
            deck_filter: None,
            bury_siblings: true,
            expected: &["cloze0"],
        },
        Case {
            name: "don't bury siblings",
            cards: vec![
                cloze_card("cloze0", "cloze", 0, "first", false),
                cloze_card("cloze1", "cloze", 1, "first", false),
                cloze_card("cloze2", "cloze", 2, "first", false),
                cloze_card("cloze3", "cloze", 3, "first", false),
            ],
            card_limit: None,
            new_card_limit: None,
            deck_filter: None,
            bury_siblings: false,
            expected: &["cloze0", "cloze1", "cloze2", "cloze3"],
        },
        Case {
            name: "pull N new cards with card limit",
            cards: vec![
                card("first", "first", false),
                card("second", "second", false),
                card("new", "first", true),
                card("new2", "first", true),
                card("new3", "first", true),
                card("third", "third", false),
                card("fourth", "fourth", false),
            ],
            card_limit: Some(5),
            new_card_limit: Some(2),
            deck_filter: None,
            bury_siblings: false,
            expected: &["first", "second", "new", "new2", "third"],
        },
        Case {
            name: "pull N cards with bury siblings",
            cards: vec![
                card("first", "first", false),
                card("second", "second", false),
                cloze_card("cloze0", "cloze", 0, "first", false),
                cloze_card("cloze1", "cloze", 1, "first", false),
                cloze_card("cloze2", "cloze", 2, "first", false),
                card("third", "third", false),
                card("new", "first", true),
                card("new2", "first", true),
            ],
            card_limit: Some(5),
            new_card_limit: None,
            deck_filter: None,
            bury_siblings: true,
            expected: &["first", "second", "cloze0", "third", "new"],
        },
    ];

    for case in cases {
        let deck: Vec<Card> = case.cards.iter().map(|case_card| case_card.card.clone()).collect();
        let is_new: Vec<bool> = case.cards.iter().map(|case_card| case_card.is_new).collect();

        let config = ServerConfig {
            card_limit: case.card_limit,
            deck_filter: case.deck_filter,
            new_card_limit: case.new_card_limit,
            bury_siblings: case.bury_siblings,
            ..base_config()
        };
        let result = filter_deck(deck, &is_new, &config);

        let got: Vec<CardHash> = result.iter().map(|card| card.hash()).collect();

        let by_label: HashMap<String, CardHash> =
            case.cards.iter().map(|cc| (cc.label.clone(), cc.card.hash())).collect();

        let want: Vec<CardHash> = case.expected.iter().map(|l| by_label[&l.to_string()]).collect();

        assert_eq!(got, want, "case: {}", case.name);
    }
}

#[test]
fn test_bury_siblings_keeps_basic_and_first_of_family() {
    let deck = vec![
        cloze_card("c0", "family one", 0, "d", false).card,
        card("basic", "d", false).card,
        cloze_card("c1", "family one", 2, "d", false).card,
        cloze_card("o0", "family two", 0, "d", false).card,
        card("basic", "d", false).card,
    ];
    let expected = vec![deck[0].hash(), deck[1].hash(), deck[3].hash(), deck[4].hash()];
    let result = bury_siblings(deck);
    let got: Vec<CardHash> = result.iter().map(|c| c.hash()).collect();
    assert_eq!(got, expected);
}

#[test]
fn test_unknown_hashes_and_due_cards() {
    let a = card("a", "d", true).card;
    let b = card("b", "d", true).card;
    let c = card("c", "d", true).card;
    let cards = vec![a.clone(), b.clone(), c.clone()];
    let db = vec![b.hash()];
    assert_eq!(unknown_hashes(&cards, &db), vec![a.hash(), c.hash()]);
    let due = vec![c.hash(), a.hash()];
    let got: Vec<CardHash> = due_cards(&cards, &due).iter().map(|x| x.hash()).collect();
    assert_eq!(got, vec![a.hash(), c.hash()]);
}

#[test]
fn test_answer_controls_name() {
    assert_eq!(AnswerControls::Full.name(), "full");
    assert_eq!(AnswerControls::Binary.name(), "binary");
}

#[test]
fn test_shuffle_is_a_permutation() {
    let deck: Vec<Card> = ["a", "b", "c", "d", "e", "f", "g"].iter().map(|l| card(l, "d", false).card).collect();
    let mut want: Vec<CardHash> = deck.iter().map(|c| c.hash()).collect();
    want.sort_by_key(|h| h.to_bytes());
    let mut orders = Vec::new();
    for seed in [1u64, 2, 3, 42, 0x9e37_79b9_7f4a_7c15] {
        let shuffled = hashcards::drill::shuffle(deck.clone(), seed);
        let again = hashcards::drill::shuffle(deck.clone(), seed);
        let order: Vec<CardHash> = shuffled.iter().map(|c| c.hash()).collect();
        let order_again: Vec<CardHash> = again.iter().map(|c| c.hash()).collect();
        assert_eq!(order, order_again);
        let mut got = order.clone();
        got.sort_by_key(|h| h.to_bytes());
        assert_eq!(got, want);
        orders.push(order);
    }
    assert!(orders.iter().any(|o| *o != orders[0]));
    assert!(hashcards::drill::shuffle(Vec::new(), 7).is_empty());
}
