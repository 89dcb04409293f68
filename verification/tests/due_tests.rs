use chrono::Datelike;
use chrono::Local;
use hashcards::card::Card;
use hashcards::card::CardContent;
use hashcards::card_hash::CardHash;
use hashcards::date::Date;
use hashcards::due::due_report;
use hashcards::due::parse_date_arg;
use hashcards::due::select_due;
use hashcards::due::select_due_on;

fn card(deck: &str, question: &str) -> Card {
    Card::new(
        deck.to_string(),
        "/collection/deck.md".to_string(),
        (0, 0),
        CardContent::new_basic(question, "answer"),
    )
}

fn fixture() -> Vec<Card> {
    vec![card("Geography", "Capital of France?"), card("Geography", "Capital of Spain?")]
}

#[test]
fn test_parse_date_arg() {
    let today = Date::new(Local::now().date_naive().num_days_from_ce());
    assert!(parse_date_arg("today", today).is_ok());
    assert!(parse_date_arg("tomorrow", today).is_ok());
    assert!(parse_date_arg("2026-01-15", today).is_ok());
    assert!(parse_date_arg("not-a-date", today).is_err());
}

#[test]
fn test_parse_date_arg_values() {
    let today = Date::parse("2026-05-20").unwrap();
    assert_eq!(parse_date_arg("today", today).unwrap(), today);
    assert_eq!(parse_date_arg("tomorrow", today).unwrap(), Date::parse("2026-05-21").unwrap());
    assert_eq!(parse_date_arg("2026-01-15", today).unwrap(), Date::parse("2026-01-15").unwrap());
    let e = parse_date_arg("not-a-date", today).unwrap_err();
    assert_eq!(
        e.message(),
        "invalid date 'not-a-date'. Valid values are `today`, `tomorrow`, or a date in `YYYY-MM-DD` format."
    );
    assert_eq!(e.report(), format!("error: {}", e.message()));
}

#[test]
fn test_due_report_counts_never_reviewed_and_overdue_cards() {
    let cards = fixture();
    assert!(cards.len() >= 2, "fixture directory must contain at least two cards");
    let today = Date::parse("2026-05-20").unwrap();
    let yesterday = Date::new(today.days - 1);
    // The first card was never reviewed; the second is overdue by a day.
    let rows = vec![(cards[0].hash(), None), (cards[1].hash(), Some(yesterday))];
    let due = select_due(&rows, today, today);
    let (_, total) = due_report(&cards, &due);
    assert_eq!(total, 2);
}

#[test]
fn test_due_report_future_date_is_exact_match() {
    let cards = fixture();
    assert!(cards.len() >= 2, "fixture directory must contain at least two cards");
    let today = Date::parse("2026-05-20").unwrap();
    let yesterday = Date::new(today.days - 1);
    let rows = vec![(cards[0].hash(), None), (cards[1].hash(), Some(yesterday))];
    let tomorrow = today.next();
    let due = select_due(&rows, tomorrow, today);
    let (_, total) = due_report(&cards, &due);
    assert_eq!(total, 0);
}

#[test]
fn test_select_due_exact_date() {
    let today = Date::parse("2026-05-20").unwrap();
    let a = CardHash::hash_bytes(b"a");
    let b = CardHash::hash_bytes(b"b");
    let c = CardHash::hash_bytes(b"c");
    let rows = vec![(a, Some(today.next())), (b, None), (c, Some(today))];
    assert_eq!(select_due(&rows, today.next(), today), vec![a]);
    assert_eq!(select_due(&rows, today, today), vec![b, c]);
}

#[test]
fn test_due_report_per_deck() {
    let cards = vec![
        card("Spanish", "uno"),
        card("Geography", "France"),
        card("Spanish", "dos"),
        card("Art", "Monet"),
    ];
    let due = vec![cards[0].hash(), cards[1].hash(), cards[2].hash()];
    let (report, total) = due_report(&cards, &due);
    assert_eq!(report, vec![("Geography".to_string(), 1), ("Spanish".to_string(), 2)]);
    assert_eq!(total, 3);
    let sum: usize = report.iter().map(|(_, n)| *n).sum();
    assert_eq!(sum, total);
}

#[test]
fn test_due_report_nothing_due() {
    let cards = fixture();
    let (report, total) = due_report(&cards, &Vec::new());
    assert!(report.is_empty());
    assert_eq!(total, 0);
}

#[test]
fn test_due_card_stays_due_later() {
    let today = Date::parse("2026-05-20").unwrap();
    let a = CardHash::hash_bytes(b"a");
    let b = CardHash::hash_bytes(b"b");
    let c = CardHash::hash_bytes(b"c");
    let rows = vec![(a, Some(today)), (b, None), (c, Some(Date::new(today.days + 2)))];
    let due_today = select_due(&rows, today, today);
    assert_eq!(due_today, vec![a, b]);
    for offset in 1..400 {
        let later = Date::new(today.days + offset);
        let due_later = select_due(&rows, later, later);
        for h in &due_today {
            assert!(due_later.contains(h), "due on {:?} but not {} days later", today, offset);
        }
    }
}

#[test]
fn test_select_due_on() {
    let today = Date::parse("2026-05-20").unwrap();
    let a = CardHash::hash_bytes(b"a");
    let b = CardHash::hash_bytes(b"b");
    let c = CardHash::hash_bytes(b"c");
    let rows = vec![(a, Some(today)), (b, None), (c, Some(today.next()))];
    assert_eq!(select_due_on(&rows, today), vec![a]);
    assert_eq!(select_due_on(&rows, today.next()), vec![c]);
    assert!(select_due_on(&rows, Date::new(today.days - 1)).is_empty());
}
