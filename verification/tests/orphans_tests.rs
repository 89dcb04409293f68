use hashcards::card::Card;
use hashcards::card::CardContent;
use hashcards::card_hash::CardHash;
use hashcards::orphans::card_hashes;
use hashcards::orphans::get_orphans;

fn collection() -> Vec<Card> {
    vec![
        Card::new("Geo".to_string(), "/c/geo.md".to_string(), (0, 1), CardContent::new_basic("France?", "Paris")),
        Card::new("Geo".to_string(), "/c/geo.md".to_string(), (2, 3), CardContent::new_basic("Spain?", "Madrid")),
    ]
}

#[test]
fn test_get_orphans() {
    let cards = collection();
    let hash = CardHash::hash_bytes(b"a");
    let mut db_hashes = card_hashes(&cards);
    db_hashes.push(hash);
    let orphans = get_orphans(&db_hashes, &cards);
    assert_eq!(orphans, vec![hash]);
}

#[test]
fn test_orphans_sorted_and_deduplicated() {
    let cards = collection();
    let x = CardHash::from_bytes([9; 32]);
    let y = CardHash::from_bytes([1; 32]);
    let db_hashes = vec![x, cards[0].hash(), y, x];
    let orphans = get_orphans(&db_hashes, &cards);
    assert_eq!(orphans, vec![y, x]);
}

#[test]
fn test_no_orphans() {
    let cards = collection();
    let db_hashes = card_hashes(&cards);
    assert!(get_orphans(&db_hashes, &cards).is_empty());
    assert!(get_orphans(&Vec::new(), &cards).is_empty());
}
