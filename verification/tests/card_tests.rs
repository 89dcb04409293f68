use hashcards::browse::card_url;
use hashcards::browse::deck_url;
use hashcards::card::Card;
use hashcards::card::CardContent;
use hashcards::card::CardType;
use hashcards::card_hash::CardHash;
use hashcards::date::Date;
use hashcards::date::Timestamp;
use hashcards::db::is_new_performance;

fn card(deck: &str, content: CardContent) -> Card {
    Card::new(deck.to_string(), "/collection/deck.md".to_string(), (0, 0), content)
}

#[test]
fn test_basic_card_hash() {
    let card1 = CardContent::new_basic("What is 2+2?", "4");
    let card2 = CardContent::new_basic("What is 2+2?", "4");
    let card3 = CardContent::new_basic("What is 3+3?", "6");
    assert_eq!(card1.hash(), card2.hash());
    assert_ne!(card1.hash(), card3.hash());
}

#[test]
fn test_cloze_card_hash() {
    let a = CardContent::new_cloze("The capital of France is Paris", 0, 1);
    let b = CardContent::new_cloze("The capital of France is Paris", 0, 2);
    assert_eq!(a.family_hash(), b.family_hash());
}

#[test]
fn test_family_hash() {
    let a = CardContent::new_cloze("The capital of France is Paris", 0, 1);
    let b = CardContent::new_cloze("The capital of France is Paris", 0, 2);
    assert_eq!(a.family_hash(), b.family_hash());
}

#[test]
fn test_cloze_hashes_differ_by_deletion() {
    let a = CardContent::new_cloze("The capital of France is Paris", 0, 1);
    let b = CardContent::new_cloze("The capital of France is Paris", 0, 2);
    assert_ne!(a.hash(), b.hash());
}

#[test]
fn test_basic_card_has_no_family() {
    let c = CardContent::new_basic("Q", "A");
    assert_eq!(c.family_hash(), None);
}

#[test]
fn test_basic_content_is_trimmed() {
    let a = CardContent::new_basic("  What is 2+2?\n", "\t4 ");
    let b = CardContent::new_basic("What is 2+2?", "4");
    assert_eq!(a.hash(), b.hash());
}

#[test]
fn test_content_hash_is_blake3_of_tagged_input() {
    let c = CardContent::new_basic("Q", "A");
    assert_eq!(c.hash(), CardHash::hash_bytes(b"BasicQA"));
    let cloze = CardContent::new_cloze("ab", 0, 0);
    let family = CardHash::hash_bytes(b"Clozeab");
    assert_eq!(cloze.family_hash(), Some(family));
}

#[test]
fn test_cloze_pair_from_term_definition() {
    let [first, second] = CardContent::new_cloze_pair_from_term_definition("  Paris ", " capital of France\n");
    assert_eq!(first.cloze_text().unwrap(), "Paris");
    assert_eq!(second.cloze_text().unwrap(), "capital of France");
    assert_eq!(first.family_hash(), second.family_hash());
    match &first {
        CardContent::Cloze { text, start, end } => {
            assert_eq!(text, "Term: Paris\n\nDefinition: capital of France");
            assert_eq!(*start, 6);
            assert_eq!(*end, 10);
        }
        CardContent::Basic { .. } => panic!("expected a cloze"),
    }
}

#[test]
fn test_cloze_pair_with_empty_term() {
    let [first, second] = CardContent::new_cloze_pair_from_term_definition("", "def");
    assert_eq!(first.cloze_text().unwrap(), "");
    assert_eq!(second.cloze_text().unwrap(), "def");
}

#[test]
fn test_cloze_text_of_card() {
    let c = card("Geo", CardContent::new_cloze("The capital of France is Paris", 25, 29));
    assert_eq!(c.cloze_text().unwrap(), "Paris");
}

#[test]
fn test_cloze_text_invalid_utf8() {
    let c = CardContent::new_cloze("é", 0, 0);
    assert!(c.cloze_text().is_err());
}

#[test]
fn test_card_accessors() {
    let content = CardContent::new_basic("Q", "A");
    let h = content.hash();
    let c = Card::new("Deck".to_string(), "/c/deck.md".to_string(), (3, 7), content);
    assert_eq!(c.deck_name(), "Deck");
    assert_eq!(c.file_path(), "/c/deck.md");
    assert_eq!(c.range(), (3, 7));
    assert_eq!(c.hash(), h);
    assert_eq!(c.family_hash(), None);
    assert!(c.card_type() == CardType::Basic);
    assert_eq!(c.shown_hash(), h);
}

#[test]
fn test_relative_file_path() {
    assert_eq!(Card::relative_file_path("/foo/bar", "/foo/bar/baz/deck.md").unwrap(), "baz/deck.md");
    assert_eq!(Card::relative_file_path("/", "/deck.md").unwrap(), "deck.md");
    assert_eq!(Card::relative_file_path("/foo", "/foo").unwrap(), "");
}

#[test]
fn test_relative_file_path_outside_root() {
    let e = Card::relative_file_path("/foo/bar", "/foo/barbaz/deck.md").unwrap_err();
    assert_eq!(e.message(), "prefix not found");
    assert!(Card::relative_file_path("/foo/bar", "/other/deck.md").is_err());
}

#[test]
fn test_hash_hex_roundtrip() {
    let h = CardHash::hash_bytes(b"a");
    let hex = h.to_hex();
    assert_eq!(hex.len(), 64);
    assert_eq!(hex, hex.to_lowercase());
    assert_eq!(CardHash::from_hex(&hex).unwrap(), h);
    assert_eq!(CardHash::from_hex(&hex.to_uppercase()).unwrap(), h);
}

#[test]
fn test_hash_from_bad_hex() {
    assert!(CardHash::from_hex("abc").is_err());
    let bad = "zz".repeat(32);
    assert!(CardHash::from_hex(&bad).is_err());
}

#[test]
fn test_hash_hex_known_value() {
    let h = CardHash::from_bytes([0xab; 32]);
    assert_eq!(h.to_hex(), "ab".repeat(32));
    assert_eq!(h.to_bytes(), [0xab; 32]);
}

#[test]
fn test_hash_order() {
    let a = CardHash::from_bytes([1; 32]);
    let mut bytes = [1; 32];
    bytes[31] = 2;
    let b = CardHash::from_bytes(bytes);
    assert!(a.less_than(&b));
    assert!(!b.less_than(&a));
    assert!(!a.less_than(&a));
    assert!(a.same(&a));
    assert!(!a.same(&b));
}

#[test]
fn test_card_url() {
    let basic = card("Geo", CardContent::new_basic("Q", "A"));
    assert_eq!(card_url(&basic), format!("/card/basic/{}", basic.hash().to_hex()));
    let cloze = card("Geo", CardContent::new_cloze("The capital of France is Paris", 25, 29));
    let family = cloze.family_hash().unwrap();
    assert_eq!(card_url(&cloze), format!("/card/cloze/{}", family.to_hex()));
}

#[test]
fn test_deck_url() {
    assert_eq!(deck_url("Geography"), "/deck/Geography");
    assert_eq!(deck_url("My Deck/1"), "/deck/My%20Deck%2F1");
    assert_eq!(deck_url("a-b_c.d"), "/deck/a%2Db%5Fc%2Ed");
    assert_eq!(deck_url("é"), "/deck/%C3%A9");
}

#[test]
fn test_hash_of_empty_input() {
    let h = CardHash::hash_bytes(b"");
    assert_eq!(h.to_hex(), "af1349b9f5f9a1a6a0404dea36dcc9499bcb25c9adc112b7cc9a93cae41f3262");
}

#[test]
fn test_trim_matches_unicode_white_space() {
    let mut chars: Vec<char> = (0u32..0x3100).filter_map(char::from_u32).collect();
    chars.extend(['\u{FEFF}', '\u{200B}', '\u{180E}']);
    for c in chars {
        let question = format!("{c}Q{c}");
        let expected = CardContent::new_basic(question.trim(), "A");
        assert_eq!(CardContent::new_basic(&question, "A").hash(), expected.hash(), "char {:?}", c);
    }
}

#[test]
fn test_performance_is_new() {
    let ts = Some(Timestamp { date: Date::new(739_756), millis: 0 });
    let day = Some(Date::new(739_757));
    assert!(!is_new_performance(ts, true, true, true, Some(1), day));
    assert!(is_new_performance(None, true, true, true, Some(1), day));
    assert!(is_new_performance(ts, false, true, true, Some(1), day));
    assert!(is_new_performance(ts, true, true, true, None, day));
    assert!(is_new_performance(ts, true, true, true, Some(1), None));
}
