use hashcards::browse::cards_in_deck;
use hashcards::browse::cards_in_family;
use hashcards::browse::compute_deck_stats;
use hashcards::browse::deck_letter;
use hashcards::browse::deck_totals;
use hashcards::browse::find_cloze_family;
use hashcards::browse::group_deck_stats;
use hashcards::browse::lookup_due_date;
use hashcards::browse::visible_cards;
use hashcards::browse::DeckStats;
use hashcards::card::Card;
use hashcards::card::CardContent;
use hashcards::card_hash::CardHash;
use hashcards::date::Date;

fn basic(deck: &str, q: &str) -> Card {
    Card::new(deck.to_string(), "/c/deck.md".to_string(), (0, 0), CardContent::new_basic(q, "a"))
}

fn cloze(deck: &str, text: &str, start: usize) -> Card {
    Card::new(deck.to_string(), "/c/deck.md".to_string(), (0, 0), CardContent::new_cloze(text, start, start))
}

fn stats(name: &str, total: usize, due: usize, new: usize) -> DeckStats {
    DeckStats { deck_name: name.to_string(), total, due, new }
}

fn summary(s: &[DeckStats]) -> Vec<(String, usize, usize, usize)> {
    s.iter().map(|d| (d.deck_name.clone(), d.total, d.due, d.new)).collect()
}

#[test]
fn test_visible_cards_one_per_family_sorted() {
    let cards = vec![
        cloze("d", "family text", 0),
        basic("d", "q1"),
        cloze("d", "family text", 3),
        basic("d", "q2"),
        cloze("d", "other text", 1),
    ];
    let refs: Vec<&Card> = cards.iter().collect();
    let visible = visible_cards(&refs);
    assert_eq!(visible.len(), 4);
    let keys: Vec<CardHash> = visible.iter().map(|c| c.shown_hash()).collect();
    for w in keys.windows(2) {
        assert!(w[0].less_than(&w[1]));
    }
    // The first card of the family is the one shown.
    let fam = cards[0].family_hash().unwrap();
    let shown: Vec<&&Card> = visible.iter().filter(|c| c.family_hash() == Some(fam)).collect();
    assert_eq!(shown.len(), 1);
    assert_eq!(shown[0].hash(), cards[0].hash());
}

#[test]
fn test_compute_deck_stats() {
    let today = Date::parse("2026-05-20").unwrap();
    let cards = vec![
        basic("spanish", "uno"),
        basic("Art", "Monet"),
        cloze("spanish", "hola amigo", 0),
        cloze("spanish", "hola amigo", 5),
        basic("spanish", "dos"),
        basic("Art", "Degas"),
    ];
    let rows = vec![
        (cards[0].hash(), Some(Date::new(today.days - 1))),
        (cards[1].hash(), Some(Date::new(today.days + 3))),
        (cards[2].hash(), None),
        (cards[3].hash(), Some(today)),
    ];
    let out = compute_deck_stats(&cards, &rows, today);
    // Sorted case-insensitively: "Art" before "spanish".
    assert_eq!(
        summary(&out),
        vec![("Art".to_string(), 2, 0, 1), ("spanish".to_string(), 3, 2, 2)]
    );
    // The deck page of a deck lists as many cards as the index counts.
    let spanish: Vec<&Card> = cards_in_deck(&cards, "spanish");
    assert_eq!(spanish.len(), 4);
    assert_eq!(visible_cards(&spanish).len(), out[1].total);
}

#[test]
fn test_compute_deck_stats_case_insensitive_order() {
    let today = Date::parse("2026-05-20").unwrap();
    let cards = vec![basic("beta", "1"), basic("Alpha", "2"), basic("alpha2", "3"), basic("Gamma", "4")];
    let out = compute_deck_stats(&cards, &Vec::new(), today);
    let names: Vec<String> = out.iter().map(|d| d.deck_name.clone()).collect();
    assert_eq!(names, vec!["Alpha", "alpha2", "beta", "Gamma"]);
    assert!(out.iter().all(|d| d.total == 1 && d.new == 1 && d.due == 0));
}

#[test]
fn test_compute_deck_stats_empty() {
    let today = Date::parse("2026-05-20").unwrap();
    assert!(compute_deck_stats(&Vec::new(), &Vec::new(), today).is_empty());
}

#[test]
fn test_lookup_due_date() {
    let a = CardHash::hash_bytes(b"a");
    let b = CardHash::hash_bytes(b"b");
    let d = Date::new(5);
    let rows = vec![(a, Some(d)), (b, None)];
    assert_eq!(lookup_due_date(&rows, &a), Some(Some(d)));
    assert_eq!(lookup_due_date(&rows, &b), Some(None));
    assert_eq!(lookup_due_date(&rows, &CardHash::hash_bytes(b"c")), None);
}

#[test]
fn test_group_deck_stats() {
    let input = vec![
        stats("", 1, 0, 0),
        stats("1st", 1, 0, 0),
        stats("apple", 2, 1, 0),
        stats("Avocado", 3, 0, 1),
        stats("banana", 1, 1, 1),
        stats("Été", 1, 0, 0),
    ];
    let groups = group_deck_stats(input);
    let letters: Vec<char> = groups.iter().map(|g| g.0).collect();
    assert_eq!(letters, vec!['#', 'A', 'B', '#']);
    let sizes: Vec<usize> = groups.iter().map(|g| g.1.len()).collect();
    assert_eq!(sizes, vec![2, 2, 1, 1]);
    assert_eq!(groups[1].1[1].deck_name, "Avocado");
    assert_eq!(deck_totals(&groups), Some((9, 2, 2)));
}

#[test]
fn test_deck_letter() {
    assert_eq!(deck_letter(&"zebra".to_string()), 'Z');
    assert_eq!(deck_letter(&"Zebra".to_string()), 'Z');
    assert_eq!(deck_letter(&"9lives".to_string()), '#');
    assert_eq!(deck_letter(&String::new()), '#');
}

#[test]
fn test_deck_totals_overflow() {
    let groups = vec![('A', vec![stats("a", usize::MAX, 0, 0), stats("a2", 1, 0, 0)])];
    assert_eq!(deck_totals(&groups), None);
    assert_eq!(deck_totals(&Vec::new()), Some((0, 0, 0)));
}

#[test]
fn test_find_cloze_family() {
    let cards = vec![
        cloze("d", "family text", 0),
        basic("d", "q"),
        cloze("d", "family text", 3),
        cloze("d", "other", 0),
    ];
    let fam = cards[0].family_hash().unwrap();
    let found = find_cloze_family(&cards, &fam.to_hex()).unwrap();
    let got: Vec<CardHash> = found.iter().map(|c| c.hash()).collect();
    assert_eq!(got, vec![cards[0].hash(), cards[2].hash()]);
    let refs: Vec<&Card> = cards.iter().collect();
    assert_eq!(cards_in_family(&refs, &fam).len(), 2);

    let unknown = CardHash::from_bytes([7; 32]);
    let e = find_cloze_family(&cards, &unknown.to_hex()).unwrap_err();
    assert_eq!(*e.message(), format!("No cloze family found with hash {}", "07".repeat(32)));
    assert!(find_cloze_family(&cards, "not hex").is_err());
}
