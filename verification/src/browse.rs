//! What the collection browser shows: the cards of a deck once per cloze
//! family, card and deck links, and per-deck statistics grouped by initial.

use vstd::prelude::*;
use vstd::utf8::*;

use percent_encoding::utf8_percent_encode;
use percent_encoding::NON_ALPHANUMERIC;

use crate::card::Card;
use crate::card::CardType;
use crate::card_hash::blake3_hex_error_text;
use crate::card_hash::bytes_lt;
use crate::card_hash::CardHash;
use crate::card_hash::contains_digest;
use crate::card_hash::digest_of_hex;
use crate::card_hash::hash_in;
use crate::card_hash::hex_text;
use crate::card_hash::is_digest_hex;
use crate::card_hash::lemma_bytes_lt_irreflexive;
use crate::card_hash::lemma_bytes_lt_total;
use crate::card_hash::lemma_bytes_lt_transitive;
use crate::card_hash::lemma_hex_roundtrip;
use crate::date::Date;
use crate::error::ErrorReport;
use crate::text::chars_less;
use crate::text::chars_lt;
use crate::text::chars_of;
use crate::text::lemma_chars_lt_total;
use crate::text::lemma_chars_lt_transitive;
use crate::text::str_equals;

verus! {

/// Server configuration.
pub struct BrowseServerConfig {
    /// The collection directory.
    pub directory: Option<String>,
    /// Interface to bind to.
    pub host: String,
    /// Hostname to serve resources on.
    pub resource_hostname: String,
    /// Server port.
    pub port: u16,
}

/// No card before `cards[i]` has its shown hash.
#[verifier::opaque]
pub open spec fn no_earlier(cards: Seq<Card>, i: int) -> bool {
    forall|j: int| 0 <= j < i ==> (#[trigger] cards[j]).shown_digest() != cards[i].shown_digest()
}

/// Is `c` the first card of `cards` with its shown hash?
#[verifier::opaque]
pub open spec fn is_first_of_deck(cards: Seq<Card>, c: Card) -> bool {
    exists|i: int| 0 <= i < cards.len() && no_earlier(cards, i) && #[trigger] cards[i] == c
}

/// Does some card of `visible` have the shown hash `key`?
#[verifier::opaque]
pub open spec fn lists_key(visible: Seq<Card>, key: Seq<u8>) -> bool {
    exists|r: int| 0 <= r < visible.len() && (#[trigger] visible[r]).shown_digest() == key
}

/// Is `visible` the deck's cards as shown: strictly ordered by shown hash,
/// each entry the first card of the deck with its shown hash, and every
/// shown hash of the deck present?
pub open spec fn is_visible_selection(visible: Seq<Card>, cards: Seq<Card>) -> bool {
    &&& forall|i: int, j: int|
        0 <= i < j < visible.len() ==> bytes_lt(
            (#[trigger] visible[i]).shown_digest(),
            (#[trigger] visible[j]).shown_digest(),
        )
    &&& forall|r: int| 0 <= r < visible.len() ==> is_first_of_deck(cards, #[trigger] visible[r])
    &&& forall|i: int| 0 <= i < cards.len() ==> lists_key(visible, (#[trigger] cards[i]).shown_digest())
}

/// Appending a card keeps `no_earlier` of the cards before it.
proof fn lemma_no_earlier_push(cards: Seq<Card>, c: Card, i: int)
    requires
        0 <= i < cards.len(),
        no_earlier(cards, i),
    ensures
        no_earlier(cards.push(c), i),
{
    reveal(no_earlier);
    assert forall|j: int| 0 <= j < i implies (#[trigger] cards.push(c)[j]).shown_digest()
        != cards.push(c)[i].shown_digest() by {
        assert(cards.push(c)[j] == cards[j]);
    }
}

/// Appending a card keeps the first cards of the deck first.
proof fn lemma_first_of_deck_push(cards: Seq<Card>, c: Card, d: Card)
    requires
        is_first_of_deck(cards, d),
    ensures
        is_first_of_deck(cards.push(c), d),
{
    reveal(is_first_of_deck);
    let i = choose|i: int| 0 <= i < cards.len() && no_earlier(cards, i) && #[trigger] cards[i] == d;
    lemma_no_earlier_push(cards, c, i);
    assert(cards.push(c)[i] == cards[i]);
}

/// A card whose shown hash is already listed adds nothing to the
/// selection.
proof fn lemma_visible_duplicate(vis: Seq<Card>, prev: Seq<Card>, c: Card, p: int)
    requires
        is_visible_selection(vis, prev),
        0 <= p < vis.len(),
        vis[p].shown_digest() == c.shown_digest(),
    ensures
        is_visible_selection(vis, prev.push(c)),
{
    let next = prev.push(c);
    let k = prev.len() as int;
    assert forall|r: int| 0 <= r < vis.len() implies is_first_of_deck(next, #[trigger] vis[r]) by {
        lemma_first_of_deck_push(prev, c, vis[r]);
    }
    assert forall|i: int| 0 <= i < next.len() implies lists_key(vis, (#[trigger] next[i]).shown_digest()) by {
        if i < k {
            assert(next[i] == prev[i]);
        } else {
            reveal(lists_key);
            assert(vis[p].shown_digest() == next[i].shown_digest());
        }
    }
}

/// The shown hash of a card placed between smaller and larger entries of a
/// strictly ordered selection is none of its entries' hashes.
proof fn lemma_key_absent(vis: Seq<Card>, key: Seq<u8>, p: int)
    requires
        forall|i: int, j: int|
            0 <= i < j < vis.len() ==> bytes_lt(
                (#[trigger] vis[i]).shown_digest(),
                (#[trigger] vis[j]).shown_digest(),
            ),
        0 <= p <= vis.len(),
        forall|i: int| 0 <= i < p ==> bytes_lt((#[trigger] vis[i]).shown_digest(), key),
        p == vis.len() || bytes_lt(key, vis[p].shown_digest()),
    ensures
        !lists_key(vis, key),
{
    reveal(lists_key);
    lemma_bytes_lt_irreflexive(key);
    assert forall|r: int| 0 <= r < vis.len() implies (#[trigger] vis[r]).shown_digest() != key by {
        if r > p {
            assert(bytes_lt(vis[p].shown_digest(), vis[r].shown_digest()));
            lemma_bytes_lt_transitive(key, vis[p].shown_digest(), vis[r].shown_digest());
        }
    }
}

/// Inserting into a strictly ordered selection at the place of the new key
/// keeps it strictly ordered.
proof fn lemma_insert_ordered(vis: Seq<Card>, c: Card, p: int)
    requires
        forall|i: int, j: int|
            0 <= i < j < vis.len() ==> bytes_lt(
                (#[trigger] vis[i]).shown_digest(),
                (#[trigger] vis[j]).shown_digest(),
            ),
        0 <= p <= vis.len(),
        forall|i: int| 0 <= i < p ==> bytes_lt((#[trigger] vis[i]).shown_digest(), c.shown_digest()),
        p == vis.len() || bytes_lt(c.shown_digest(), vis[p].shown_digest()),
    ensures
        forall|i: int, j: int|
            0 <= i < j < vis.insert(p, c).len() ==> bytes_lt(
                (#[trigger] vis.insert(p, c)[i]).shown_digest(),
                (#[trigger] vis.insert(p, c)[j]).shown_digest(),
            ),
{
    let now = vis.insert(p, c);
    let key = c.shown_digest();
    assert forall|i: int, j: int| 0 <= i < j < now.len() implies bytes_lt(
        (#[trigger] now[i]).shown_digest(),
        (#[trigger] now[j]).shown_digest(),
    ) by {
        if j < p {
            assert(now[i] == vis[i] && now[j] == vis[j]);
        } else if j == p {
            assert(now[i] == vis[i]);
        } else {
            assert(now[j] == vis[j - 1]);
            if j - 1 > p {
                assert(bytes_lt(vis[p].shown_digest(), vis[j - 1].shown_digest()));
                lemma_bytes_lt_transitive(key, vis[p].shown_digest(), vis[j - 1].shown_digest());
            }
            if i < p {
                assert(now[i] == vis[i]);
                lemma_bytes_lt_transitive(vis[i].shown_digest(), key, vis[j - 1].shown_digest());
            } else if i > p {
                assert(now[i] == vis[i - 1]);
            }
        }
    }
}

/// A card with a new shown hash is inserted at its place in the order.
proof fn lemma_visible_insert(vis: Seq<Card>, prev: Seq<Card>, c: Card, p: int)
    requires
        is_visible_selection(vis, prev),
        0 <= p <= vis.len(),
        forall|i: int| 0 <= i < p ==> bytes_lt((#[trigger] vis[i]).shown_digest(), c.shown_digest()),
        p == vis.len() || bytes_lt(c.shown_digest(), vis[p].shown_digest()),
    ensures
        is_visible_selection(vis.insert(p, c), prev.push(c)),
{
    let next = prev.push(c);
    let now = vis.insert(p, c);
    let key = c.shown_digest();
    let k = prev.len() as int;
    lemma_insert_ordered(vis, c, p);
    lemma_key_absent(vis, key, p);
    assert(no_earlier(next, k)) by {
        reveal(no_earlier);
        assert forall|j: int| 0 <= j < k implies (#[trigger] next[j]).shown_digest() != next[k].shown_digest() by {
            assert(next[j] == prev[j]);
            assert(lists_key(vis, prev[j].shown_digest()));
        }
    }
    assert forall|r: int| 0 <= r < now.len() implies is_first_of_deck(next, #[trigger] now[r]) by {
        if r == p {
            reveal(is_first_of_deck);
            assert(next[k] == now[r]);
        } else {
            let r0 = if r < p { r } else { r - 1 };
            assert(now[r] == vis[r0]);
            lemma_first_of_deck_push(prev, c, vis[r0]);
        }
    }
    assert forall|i: int| 0 <= i < next.len() implies lists_key(now, (#[trigger] next[i]).shown_digest()) by {
        reveal(lists_key);
        if i < k {
            assert(next[i] == prev[i]);
            assert(lists_key(vis, prev[i].shown_digest()));
            let r = choose|r: int| 0 <= r < vis.len() && (#[trigger] vis[r]).shown_digest() == prev[i].shown_digest();
            if r < p {
                assert(now[r] == vis[r]);
            } else {
                assert(now[r + 1] == vis[r]);
            }
        } else {
            assert(now[p] == next[i]);
        }
    }
}

/// Reduce a deck's cards to the ones that should be shown to the user: one
/// entry per basic card, and one entry per cloze family, sorted by the
/// shown hash (the family hash of a cloze card, else the card hash).
pub fn visible_cards<'a>(cards: &Vec<&'a Card>) -> (visible: Vec<&'a Card>)
    ensures
        is_visible_selection(
            visible@.map_values(|c: &Card| *c),
            cards@.map_values(|c: &Card| *c),
        ),
{
    let ghost all = cards@.map_values(|c: &Card| *c);
    let mut visible: Vec<&'a Card> = Vec::new();
    let mut k: usize = 0;
    proof {
        assert(visible@.map_values(|c: &Card| *c) =~= Seq::<Card>::empty());
    }
    while k < cards.len()
        invariant
            k <= cards@.len(),
            all == cards@.map_values(|c: &Card| *c),
            is_visible_selection(visible@.map_values(|c: &Card| *c), all.take(k as int)),
        decreases cards.len() - k,
    {
        let card: &'a Card = cards[k];
        let key = card.shown_hash();
        let ghost vis = visible@.map_values(|c: &Card| *c);
        proof {
            assert(all.take(k + 1) =~= all.take(k as int).push(*card));
        }
        let mut p: usize = 0;
        while p < visible.len() && visible[p].shown_hash().less_than(&key)
            invariant
                p <= visible@.len(),
                vis == visible@.map_values(|c: &Card| *c),
                key@ == card.shown_digest(),
                forall|i: int| 0 <= i < p ==> bytes_lt((#[trigger] vis[i]).shown_digest(), key@),
            decreases visible.len() - p,
        {
            p = p + 1;
        }
        if p < visible.len() && visible[p].shown_hash().same(&key) {
            proof {
                lemma_visible_duplicate(vis, all.take(k as int), *card, p as int);
            }
        } else {
            proof {
                if p < visible.len() {
                    lemma_bytes_lt_total(vis[p as int].shown_digest(), key@);
                }
                lemma_visible_insert(vis, all.take(k as int), *card, p as int);
            }
            visible.insert(p, card);
            proof {
                assert(visible@.map_values(|c: &Card| *c) =~= vis.insert(p as int, *card));
            }
        }
        k = k + 1;
    }
    proof {
        assert(all.take(cards.len() as int) =~= all);
    }
    visible
}


/// Is the byte an ASCII letter or digit?
pub open spec fn is_ascii_alphanumeric(b: u8) -> bool {
    (48 <= b <= 57) || (65 <= b <= 90) || (97 <= b <= 122)
}

/// The uppercase hexadecimal digit for a value below 16.
pub open spec fn upper_hex_digit(n: int) -> char {
    if n < 10 {
        (48 + n) as char
    } else {
        (55 + n) as char
    }
}

/// How one byte is written in a percent-encoded URL segment: an ASCII
/// letter or digit as itself, any other byte as `%` and two uppercase
/// hexadecimal digits.
pub open spec fn percent_encoded_byte(b: u8) -> Seq<char> {
    if is_ascii_alphanumeric(b) {
        seq![b as char]
    } else {
        seq!['%', upper_hex_digit(b as int / 16), upper_hex_digit(b as int % 16)]
    }
}

/// Percent-encoding of a byte sequence with every byte that is not an ASCII
/// letter or digit escaped.
pub open spec fn percent_encoded(bytes: Seq<u8>) -> Seq<char>
    decreases bytes.len(),
{
    if bytes.len() == 0 {
        Seq::empty()
    } else {
        percent_encoded(bytes.drop_last()) + percent_encoded_byte(bytes.last())
    }
}

/// Calls `percent_encoding::utf8_percent_encode(text, NON_ALPHANUMERIC)` and
/// collects it: each UTF-8 byte of the text that is not an ASCII letter or
/// digit becomes `%XX` (uppercase hexadecimal), the others stay as they are.
#[verifier::external_body]
fn percent_encode_non_alphanumeric(text: &str) -> (r: String)
    ensures
        r@ == percent_encoded(encode_utf8(text@)),
{
    utf8_percent_encode(text, NON_ALPHANUMERIC).to_string()
}

/// The prefix of deck page URLs.
pub open spec fn deck_url_prefix() -> Seq<char> {
    "/deck/"@
}

/// The URL of a deck's page: `/deck/` and the percent-encoded deck name.
pub fn deck_url(deck_name: &str) -> (url: String)
    ensures
        url@ == deck_url_prefix() + percent_encoded(encode_utf8(deck_name@)),
{
    let mut url = String::new();
    url.append("/deck/");
    url.append(percent_encode_non_alphanumeric(deck_name).as_str());
    url
}

/// The URL of a card's page: `/card/basic/` and the card hash for a basic
/// card, `/card/cloze/` and the family hash for a cloze card.
pub open spec fn card_url_of(card: Card) -> Seq<char> {
    if card.is_cloze() {
        "/card/cloze/"@ + hex_text(card.shown_digest())
    } else {
        "/card/basic/"@ + hex_text(card.digest())
    }
}

/// The URL of a card's page.
pub fn card_url(card: &Card) -> (url: String)
    ensures
        url@ == card_url_of(*card),
{
    let mut url = String::new();
    match card.card_type() {
        CardType::Basic => {
            url.append("/card/basic/");
            url.append(card.hash().to_hex().as_str());
        },
        CardType::Cloze => {
            url.append("/card/cloze/");
            url.append(card.shown_hash().to_hex().as_str());
        },
    }
    url
}


/// The statistics of one deck shown on the browser's index page.
pub struct DeckStats {
    /// The deck's name.
    pub deck_name: String,
    /// Its cards as shown: one per basic card and one per cloze family.
    pub total: usize,
    /// Its cards that have been reviewed and are due by today.
    pub due: usize,
    /// Its cards that are not in the database or were never reviewed.
    pub new: usize,
}

/// The due date recorded for the card hash `d`: the first row with that
/// hash among (card hash, due date) rows, `None` if there is none.
pub open spec fn lookup_due(rows: Seq<(CardHash, Option<Date>)>, d: Seq<u8>) -> Option<Option<Date>>
    decreases rows.len(),
{
    if rows.len() == 0 {
        None
    } else if rows[0].0@ == d {
        Some(rows[0].1)
    } else {
        lookup_due(rows.drop_first(), d)
    }
}

/// Is a card with this entry new: not in the database, or never reviewed?
pub open spec fn counts_as_new(entry: Option<Option<Date>>) -> bool {
    entry is None || entry == Some(None::<Date>)
}

/// Is a card with this entry reviewed and due by `today`?
pub open spec fn counts_as_due_by(entry: Option<Option<Date>>, today: Date) -> bool {
    entry matches Some(Some(d)) && d.days <= today.days
}

/// How many cards of deck `name` are new.
pub open spec fn new_in_deck(cards: Seq<Card>, rows: Seq<(CardHash, Option<Date>)>, name: Seq<char>) -> nat
    decreases cards.len(),
{
    if cards.len() == 0 {
        0
    } else {
        new_in_deck(cards.drop_last(), rows, name) + if cards.last().deck() == name && counts_as_new(
            lookup_due(rows, cards.last().digest()),
        ) {
            1nat
        } else {
            0nat
        }
    }
}

/// How many cards of deck `name` are reviewed and due by `today`.
pub open spec fn due_in_deck(
    cards: Seq<Card>,
    rows: Seq<(CardHash, Option<Date>)>,
    name: Seq<char>,
    today: Date,
) -> nat
    decreases cards.len(),
{
    if cards.len() == 0 {
        0
    } else {
        due_in_deck(cards.drop_last(), rows, name, today) + if cards.last().deck() == name
            && counts_as_due_by(lookup_due(rows, cards.last().digest()), today) {
            1nat
        } else {
            0nat
        }
    }
}

/// Does a card of deck `name` among `cards` have the shown hash `key`?
pub open spec fn shown_in(cards: Seq<Card>, name: Seq<char>, key: Seq<u8>) -> bool {
    exists|j: int| 0 <= j < cards.len() && cards[j].deck() == name && (#[trigger] cards[j]).shown_digest() == key
}

/// How many distinct shown hashes the cards of deck `name` have: each basic
/// card counts once, and all cloze cards of a family count once together.
pub open spec fn shown_in_deck(cards: Seq<Card>, name: Seq<char>) -> nat
    decreases cards.len(),
{
    if cards.len() == 0 {
        0
    } else {
        shown_in_deck(cards.drop_last(), name) + if cards.last().deck() == name && !shown_in(
            cards.drop_last(),
            name,
            cards.last().shown_digest(),
        ) {
            1nat
        } else {
            0nat
        }
    }
}

/// Are these the statistics of the deck they name?
pub open spec fn exact_stats(s: DeckStats, cards: Seq<Card>, rows: Seq<(CardHash, Option<Date>)>, today: Date) -> bool {
    &&& s.total == shown_in_deck(cards, s.deck_name@)
    &&& s.due == due_in_deck(cards, rows, s.deck_name@, today)
    &&& s.new == new_in_deck(cards, rows, s.deck_name@)
}

/// Is `name` the deck of some card?
#[verifier::opaque]
pub open spec fn has_deck(cards: Seq<Card>, name: Seq<char>) -> bool {
    exists|i: int| 0 <= i < cards.len() && (#[trigger] cards[i]).deck() == name
}

/// Does some entry of `stats` name the deck `name`?
#[verifier::opaque]
pub open spec fn lists_deck(stats: Seq<DeckStats>, name: Seq<char>) -> bool {
    exists|r: int| 0 <= r < stats.len() && (#[trigger] stats[r]).deck_name@ == name
}

/// The text `str::to_lowercase` gives for a text.
pub uninterp spec fn lowercased(text: Seq<char>) -> Seq<char>;

/// Calls `str::to_lowercase`.
#[verifier::external_body]
fn to_lowercase(text: &str) -> (r: String)
    ensures
        r@ == lowercased(text@),
{
    text.to_lowercase()
}

/// The due date recorded for a card hash (see `lookup_due`).
pub fn lookup_due_date(rows: &Vec<(CardHash, Option<Date>)>, h: &CardHash) -> (r: Option<Option<Date>>)
    ensures
        r == lookup_due(rows@, h@),
{
    let mut i: usize = 0;
    proof {
        assert(rows@.subrange(0, rows@.len() as int) =~= rows@);
    }
    while i < rows.len()
        invariant
            i <= rows@.len(),
            lookup_due(rows@, h@) == lookup_due(rows@.subrange(i as int, rows@.len() as int), h@),
        decreases rows.len() - i,
    {
        proof {
            let rest = rows@.subrange(i as int, rows@.len() as int);
            assert(rest.drop_first() =~= rows@.subrange(i + 1, rows@.len() as int));
        }
        if rows[i].0.same(h) {
            return Some(rows[i].1);
        }
        i = i + 1;
    }
    None
}

/// The statistics of the deck `name`.
fn deck_stats_for(cards: &Vec<Card>, rows: &Vec<(CardHash, Option<Date>)>, name: &String, today: Date) -> (s: DeckStats)
    ensures
        s.deck_name@ == name@,
        exact_stats(s, cards@, rows@, today),
{
    let mut seen: Vec<CardHash> = Vec::new();
    let mut total: usize = 0;
    let mut due: usize = 0;
    let mut new: usize = 0;
    let mut k: usize = 0;
    while k < cards.len()
        invariant
            k <= cards@.len(),
            total <= k,
            due <= k,
            new <= k,
            total == shown_in_deck(cards@.take(k as int), name@),
            due == due_in_deck(cards@.take(k as int), rows@, name@, today),
            new == new_in_deck(cards@.take(k as int), rows@, name@),
            forall|j: int| 0 <= j < seen@.len() ==> shown_in(cards@.take(k as int), name@, (#[trigger] seen@[j])@),
            forall|j: int|
                0 <= j < k && (#[trigger] cards@[j]).deck() == name@ ==> contains_digest(seen@, cards@[j].shown_digest()),
        decreases cards.len() - k,
    {
        let card = &cards[k];
        let ghost prefix = cards@.take(k as int);
        let ghost next = cards@.take(k + 1);
        let ghost seen0 = seen@;
        proof {
            assert(next.drop_last() =~= prefix);
            assert(next.last() == *card);
        }
        if str_equals(card.deck_name().as_str(), name.as_str()) {
            let key = card.shown_hash();
            let known = hash_in(&seen, &key);
            proof {
                if known {
                    let j = choose|j: int| 0 <= j < seen@.len() && (#[trigger] seen@[j])@ == key@;
                    assert(shown_in(prefix, name@, seen@[j]@));
                } else {
                    assert forall|j: int| 0 <= j < prefix.len() && prefix[j].deck() == name@ implies (#[trigger] prefix[j]).shown_digest() != key@ by {
                        assert(prefix[j] == cards@[j]);
                        assert(contains_digest(seen@, cards@[j].shown_digest()));
                    }
                }
            }
            if !known {
                seen.push(key);
                total = total + 1;
            }
            let entry = lookup_due_date(rows, &card.hash());
            match entry {
                None => {
                    new = new + 1;
                },
                Some(None) => {
                    new = new + 1;
                },
                Some(Some(d)) => {
                    if d.days <= today.days {
                        due = due + 1;
                    }
                },
            }
        }
        proof {
            assert forall|j: int| 0 <= j < seen@.len() implies shown_in(next, name@, (#[trigger] seen@[j])@) by {
                if j < seen0.len() {
                    assert(seen@[j] == seen0[j]);
                    assert(shown_in(prefix, name@, seen0[j]@));
                    let i = choose|i: int| 0 <= i < prefix.len() && prefix[i].deck() == name@ && (#[trigger] prefix[i]).shown_digest() == seen@[j]@;
                    assert(next[i] == prefix[i]);
                } else {
                    assert(next[k as int] == *card);
                }
            }
            assert forall|j: int| 0 <= j < k + 1 && (#[trigger] cards@[j]).deck() == name@ implies contains_digest(seen@, cards@[j].shown_digest()) by {
                if j == k {
                    if contains_digest(seen@, card.shown_digest()) {
                    } else {
                        assert(seen@[seen@.len() - 1]@ == card.shown_digest());
                    }
                } else {
                    assert(contains_digest(seen0, cards@[j].shown_digest()));
                    let i = choose|i: int| 0 <= i < seen0.len() && (#[trigger] seen0[i])@ == cards@[j].shown_digest();
                    assert(seen@[i] == seen0[i]);
                }
            }
        }
        k = k + 1;
    }
    proof {
        assert(cards@.take(cards@.len() as int) =~= cards@);
    }
    DeckStats { deck_name: name.clone(), total, due, new }
}


/// Is `stats` ordered by lowercased deck name?
pub open spec fn sorted_by_lowercase(stats: Seq<DeckStats>) -> bool {
    forall|i: int, j: int|
        0 <= i < j < stats.len() ==> !chars_lt(
            lowercased((#[trigger] stats[j]).deck_name@),
            lowercased((#[trigger] stats[i]).deck_name@),
        )
}

/// Are `stats` the statistics of the decks of `cards`: one entry per deck,
/// each exact, ordered by lowercased deck name?
pub open spec fn is_deck_stats(
    stats: Seq<DeckStats>,
    cards: Seq<Card>,
    rows: Seq<(CardHash, Option<Date>)>,
    today: Date,
) -> bool {
    &&& forall|r: int| 0 <= r < stats.len() ==> exact_stats(#[trigger] stats[r], cards, rows, today)
    &&& forall|r: int| 0 <= r < stats.len() ==> has_deck(cards, (#[trigger] stats[r]).deck_name@)
    &&& forall|i: int, j: int| 0 <= i < j < stats.len() ==> (#[trigger] stats[i]).deck_name@ != (#[trigger] stats[j]).deck_name@
    &&& forall|i: int| 0 <= i < cards.len() ==> lists_deck(stats, (#[trigger] cards[i]).deck())
    &&& sorted_by_lowercase(stats)
}

/// Does some entry of `stats` name the deck `name`?
fn deck_listed(stats: &Vec<DeckStats>, name: &String) -> (r: bool)
    ensures
        r == lists_deck(stats@, name@),
{
    let mut r: usize = 0;
    while r < stats.len()
        invariant
            r <= stats@.len(),
            forall|i: int| 0 <= i < r ==> (#[trigger] stats@[i]).deck_name@ != name@,
        decreases stats.len() - r,
    {
        if str_equals(stats[r].deck_name.as_str(), name.as_str()) {
            proof {
                reveal(lists_deck);
                assert(stats@[r as int].deck_name@ == name@);
            }
            return true;
        }
        r = r + 1;
    }
    proof {
        reveal(lists_deck);
    }
    false
}

/// Inserting a key after every key not above it keeps a sequence of keys
/// ordered.
proof fn lemma_insert_sorted_keys(keys: Seq<Seq<char>>, key: Seq<char>, p: int)
    requires
        forall|i: int, j: int| 0 <= i < j < keys.len() ==> !chars_lt(#[trigger] keys[j], #[trigger] keys[i]),
        0 <= p <= keys.len(),
        forall|i: int| 0 <= i < p ==> !chars_lt(key, #[trigger] keys[i]),
        p == keys.len() || chars_lt(key, keys[p]),
    ensures
        forall|i: int, j: int|
            0 <= i < j < keys.insert(p, key).len() ==> !chars_lt(
                #[trigger] keys.insert(p, key)[j],
                #[trigger] keys.insert(p, key)[i],
            ),
{
    let now = keys.insert(p, key);
    assert forall|i: int, j: int| 0 <= i < j < now.len() implies !chars_lt(#[trigger] now[j], #[trigger] now[i]) by {
        if j < p {
            assert(now[i] == keys[i] && now[j] == keys[j]);
        } else if j == p {
            assert(now[i] == keys[i]);
        } else {
            assert(now[j] == keys[j - 1]);
            if j - 1 > p {
                assert(!chars_lt(keys[j - 1], keys[p]));
                lemma_chars_lt_total(keys[j - 1], keys[p]);
                if keys[j - 1] != keys[p] {
                    lemma_chars_lt_transitive(key, keys[p], keys[j - 1]);
                }
            }
            lemma_chars_lt_total(key, keys[j - 1]);
            if i < p {
                assert(now[i] == keys[i]);
                if chars_lt(keys[j - 1], keys[i]) {
                    lemma_chars_lt_transitive(key, keys[j - 1], keys[i]);
                }
            } else if i > p {
                assert(now[i] == keys[i - 1]);
            }
        }
    }
}

/// The statistics of every deck of `cards`: how many cards each shows (one
/// per basic card, one per cloze family), how many are due by `today` and
/// how many are new, given the (card hash, due date) rows of the database;
/// ordered by lowercased deck name.
pub fn compute_deck_stats(
    cards: &Vec<Card>,
    due_dates: &Vec<(CardHash, Option<Date>)>,
    today: Date,
) -> (out: Vec<DeckStats>)
    ensures
        is_deck_stats(out@, cards@, due_dates@, today),
{
    let mut out: Vec<DeckStats> = Vec::new();
    let mut keys: Vec<Vec<char>> = Vec::new();
    let mut k: usize = 0;
    while k < cards.len()
        invariant
            k <= cards@.len(),
            out@.len() == keys@.len(),
            forall|r: int| 0 <= r < keys@.len() ==> (#[trigger] keys@[r])@ == lowercased(out@[r].deck_name@),
            forall|r: int| 0 <= r < out@.len() ==> exact_stats(#[trigger] out@[r], cards@, due_dates@, today),
            forall|r: int| 0 <= r < out@.len() ==> has_deck(cards@, (#[trigger] out@[r]).deck_name@),
            forall|i: int, j: int| 0 <= i < j < out@.len() ==> (#[trigger] out@[i]).deck_name@ != (#[trigger] out@[j]).deck_name@,
            forall|i: int| 0 <= i < k ==> lists_deck(out@, (#[trigger] cards@[i]).deck()),
            sorted_by_lowercase(out@),
        decreases cards.len() - k,
    {
        let name = cards[k].deck_name();
        if !deck_listed(&out, name) {
            let s = deck_stats_for(cards, due_dates, name, today);
            let key = chars_of(to_lowercase(name.as_str()).as_str());
            let mut p: usize = 0;
            while p < keys.len() && !chars_less(&key, &keys[p])
                invariant
                    p <= keys@.len(),
                    forall|i: int| 0 <= i < p ==> !chars_lt(key@, (#[trigger] keys@[i])@),
                decreases keys.len() - p,
            {
                p = p + 1;
            }
            let ghost out0 = out@;
            let ghost kv = keys@.map_values(|v: Vec<char>| v@);
            proof {
                assert forall|i: int, j: int| 0 <= i < j < kv.len() implies !chars_lt(#[trigger] kv[j], #[trigger] kv[i]) by {
                    assert(kv[j] == lowercased(out0[j].deck_name@));
                    assert(kv[i] == lowercased(out0[i].deck_name@));
                }
                assert forall|i: int| 0 <= i < p implies !chars_lt(key@, #[trigger] kv[i]) by {
                    assert(kv[i] == keys@[i]@);
                }
                lemma_insert_sorted_keys(kv, key@, p as int);
                reveal(has_deck);
                reveal(lists_deck);
                assert(has_deck(cards@, name@));
            }
            out.insert(p, s);
            keys.insert(p, key);
            proof {
                let kn = kv.insert(p as int, key@);
                assert forall|r: int| 0 <= r < keys@.len() implies (#[trigger] keys@[r])@ == lowercased(out@[r].deck_name@) by {
                    if r < p {
                        assert(out@[r] == out0[r]);
                    } else if r > p {
                        assert(out@[r] == out0[r - 1]);
                    }
                }
                assert forall|r: int| 0 <= r < out@.len() implies exact_stats(#[trigger] out@[r], cards@, due_dates@, today) && has_deck(cards@, out@[r].deck_name@) by {
                    if r < p {
                        assert(out@[r] == out0[r]);
                    } else if r > p {
                        assert(out@[r] == out0[r - 1]);
                    }
                }
                assert forall|i: int, j: int| 0 <= i < j < out@.len() implies (#[trigger] out@[i]).deck_name@ != (#[trigger] out@[j]).deck_name@ by {
                    let i0 = if i < p { i } else { i - 1 };
                    let j0 = if j < p { j } else { j - 1 };
                    if i != p as int {
                        assert(out@[i] == out0[i0]);
                    }
                    if j != p as int {
                        assert(out@[j] == out0[j0]);
                    }
                }
                assert forall|i: int| 0 <= i < k + 1 implies lists_deck(out@, (#[trigger] cards@[i]).deck()) by {
                    if i == k {
                        assert(out@[p as int].deck_name@ == name@);
                    } else {
                        assert(lists_deck(out0, cards@[i].deck()));
                        let r = choose|r: int| 0 <= r < out0.len() && (#[trigger] out0[r]).deck_name@ == cards@[i].deck();
                        if r < p {
                            assert(out@[r] == out0[r]);
                        } else {
                            assert(out@[r + 1] == out0[r]);
                        }
                    }
                }
                assert forall|i: int, j: int| 0 <= i < j < out@.len() implies !chars_lt(
                    lowercased((#[trigger] out@[j]).deck_name@),
                    lowercased((#[trigger] out@[i]).deck_name@),
                ) by {
                    assert(kn[i] == keys@[i]@);
                    assert(kn[j] == keys@[j]@);
                }
            }
        } else {
            proof {
                assert forall|i: int| 0 <= i < k + 1 implies lists_deck(out@, (#[trigger] cards@[i]).deck()) by {
                }
            }
        }
        k = k + 1;
    }
    out
}


/// The letter a deck is filed under on the index page: the uppercase form
/// of an initial ASCII letter, `#` for any other initial or an empty name.
pub open spec fn group_letter(name: Seq<char>) -> char {
    if name.len() == 0 {
        '#'
    } else if 97 <= (name[0] as u32) <= 122 {
        ((name[0] as u32) - 32) as char
    } else if 65 <= (name[0] as u32) <= 90 {
        name[0]
    } else {
        '#'
    }
}

/// The letter a deck is filed under.
pub fn deck_letter(name: &String) -> (c: char)
    ensures
        c == group_letter(name@),
{
    let chars = chars_of(name.as_str());
    if chars.len() == 0 {
        return '#';
    }
    let first = chars[0];
    let code = first as u32;
    if 97 <= code && code <= 122 {
        let upper: u8 = (code - 32) as u8;
        upper as char
    } else if 65 <= code && code <= 90 {
        first
    } else {
        '#'
    }
}


/// The entries of the groups, in order.
pub open spec fn members(groups: Seq<(char, Vec<DeckStats>)>) -> Seq<DeckStats>
    decreases groups.len(),
{
    if groups.len() == 0 {
        Seq::empty()
    } else {
        members(groups.drop_last()) + groups.last().1@
    }
}

/// Are `groups` the runs of consecutive entries of `stats` filed under one
/// letter: together they hold `stats` in order, none is empty, each entry's
/// letter is its group's, and neighbouring groups differ in letter?
pub open spec fn is_letter_grouping(groups: Seq<(char, Vec<DeckStats>)>, stats: Seq<DeckStats>) -> bool {
    &&& members(groups) == stats
    &&& forall|g: int| 0 <= g < groups.len() ==> (#[trigger] groups[g]).1@.len() > 0
    &&& forall|g: int, i: int|
        0 <= g < groups.len() && 0 <= i < groups[g].1@.len() ==> group_letter(
            (#[trigger] groups[g].1@[i]).deck_name@,
        ) == groups[g].0
    &&& forall|g: int| 0 <= g < groups.len() - 1 ==> (#[trigger] groups[g]).0 != groups[g + 1].0
}

/// Groups consecutive deck statistics by the letter their deck is filed
/// under.
pub fn group_deck_stats(deck_stats: Vec<DeckStats>) -> (groups: Vec<(char, Vec<DeckStats>)>)
    ensures
        is_letter_grouping(groups@, deck_stats@),
{
    let ghost input = deck_stats@;
    let n = deck_stats.len();
    let mut rest = deck_stats;
    let mut groups: Vec<(char, Vec<DeckStats>)> = Vec::new();
    let mut k: usize = 0;
    proof {
        assert(members(groups@) =~= input.take(0));
        assert(rest@ =~= input.subrange(0, n as int));
    }
    while k < n
        invariant
            k <= n,
            n == input.len(),
            rest@ == input.subrange(k as int, n as int),
            is_letter_grouping(groups@, input.take(k as int)),
        decreases n - k,
    {
        let stats = rest.remove(0);
        proof {
            assert(stats == input[k as int]);
            assert(rest@ =~= input.subrange(k + 1, n as int));
            assert(input.take(k + 1) =~= input.take(k as int).push(stats));
        }
        let letter = deck_letter(&stats.deck_name);
        let len = groups.len();
        let ghost g0 = groups@;
        if len > 0 && groups[len - 1].0 == letter {
            let mut last = groups.pop().unwrap();
            proof {
                assert(groups@ =~= g0.drop_last());
                assert(last == g0.last());
            }
            let ghost old_last = last;
            last.1.push(stats);
            groups.push(last);
            proof {
                assert(groups@.drop_last() =~= g0.drop_last());
                assert(members(groups@) =~= members(g0).push(stats));
                assert forall|g: int, i: int|
                    0 <= g < groups@.len() && 0 <= i < groups@[g].1@.len() implies group_letter(
                    (#[trigger] groups@[g].1@[i]).deck_name@,
                ) == groups@[g].0 by {
                    if g < len - 1 {
                        assert(groups@[g] == g0[g]);
                    } else if i < old_last.1@.len() {
                        assert(groups@[g].1@[i] == g0[g].1@[i]);
                    }
                }
                assert forall|g: int| 0 <= g < groups@.len() - 1 implies (#[trigger] groups@[g]).0 != groups@[g + 1].0 by {
                    assert(groups@[g] == g0[g]);
                    if g + 1 < len - 1 {
                        assert(groups@[g + 1] == g0[g + 1]);
                    }
                }
                assert forall|g: int| 0 <= g < groups@.len() implies (#[trigger] groups@[g]).1@.len() > 0 by {
                    if g < len - 1 {
                        assert(groups@[g] == g0[g]);
                    }
                }
            }
        } else {
            let mut v: Vec<DeckStats> = Vec::new();
            v.push(stats);
            groups.push((letter, v));
            proof {
                assert(groups@.drop_last() =~= g0);
                assert(members(groups@) =~= members(g0).push(stats));
                assert forall|g: int, i: int|
                    0 <= g < groups@.len() && 0 <= i < groups@[g].1@.len() implies group_letter(
                    (#[trigger] groups@[g].1@[i]).deck_name@,
                ) == groups@[g].0 by {
                    if g < len {
                        assert(groups@[g] == g0[g]);
                    }
                }
                assert forall|g: int| 0 <= g < groups@.len() - 1 implies (#[trigger] groups@[g]).0 != groups@[g + 1].0 by {
                    assert(groups@[g] == g0[g]);
                    if g + 1 < len {
                        assert(groups@[g + 1] == g0[g + 1]);
                    }
                }
                assert forall|g: int| 0 <= g < groups@.len() implies (#[trigger] groups@[g]).1@.len() > 0 by {
                    if g < len {
                        assert(groups@[g] == g0[g]);
                    }
                }
            }
        }
        k = k + 1;
    }
    proof {
        assert(input.take(n as int) =~= input);
    }
    groups
}


/// The cards of deck `name`, in order.
pub open spec fn deck_cards(cards: Seq<Card>, name: Seq<char>) -> Seq<Card> {
    cards.filter(|c: Card| c.deck() == name)
}

/// The cards of deck `name`.
pub fn cards_in_deck<'a>(cards: &'a Vec<Card>, name: &str) -> (r: Vec<&'a Card>)
    ensures
        r@.map_values(|c: &Card| *c) == deck_cards(cards@, name@),
{
    let mut r: Vec<&'a Card> = Vec::new();
    let mut k: usize = 0;
    while k < cards.len()
        invariant
            k <= cards@.len(),
            r@.map_values(|c: &Card| *c) == deck_cards(cards@.take(k as int), name@),
        decreases cards.len() - k,
    {
        let card = &cards[k];
        let keep = str_equals(card.deck_name().as_str(), name);
        proof {
            assert(cards@.take(k + 1).drop_last() =~= cards@.take(k as int));
            assert(cards@.take(k + 1).last() == *card);
            reveal_with_fuel(Seq::filter, 1);
        }
        let ghost before = r@.map_values(|c: &Card| *c);
        if keep {
            r.push(card);
            proof {
                assert(r@.map_values(|c: &Card| *c) =~= before.push(*card));
            }
        }
        k = k + 1;
    }
    proof {
        assert(cards@.take(cards.len() as int) =~= cards@);
    }
    r
}

/// The cards of the cloze family `family`, in order.
pub open spec fn family_cards(cards: Seq<Card>, family: Seq<u8>) -> Seq<Card> {
    cards.filter(|c: Card| c.family() == Some(family))
}

/// The cards, among `cards`, of the cloze family `family`.
pub fn cards_in_family<'a>(cards: &Vec<&'a Card>, family: &CardHash) -> (r: Vec<&'a Card>)
    ensures
        r@.map_values(|c: &Card| *c) == family_cards(cards@.map_values(|c: &Card| *c), family@),
{
    let ghost all = cards@.map_values(|c: &Card| *c);
    let mut r: Vec<&'a Card> = Vec::new();
    let mut k: usize = 0;
    while k < cards.len()
        invariant
            k <= cards@.len(),
            all == cards@.map_values(|c: &Card| *c),
            r@.map_values(|c: &Card| *c) == family_cards(all.take(k as int), family@),
        decreases cards.len() - k,
    {
        let card: &'a Card = cards[k];
        let keep = match card.family_hash() {
            Some(f) => f.same(family),
            None => false,
        };
        proof {
            assert(all.take(k + 1).drop_last() =~= all.take(k as int));
            assert(all.take(k + 1).last() == *card);
            reveal_with_fuel(Seq::filter, 1);
        }
        let ghost before = r@.map_values(|c: &Card| *c);
        if keep {
            r.push(card);
            proof {
                assert(r@.map_values(|c: &Card| *c) =~= before.push(*card));
            }
        }
        k = k + 1;
    }
    proof {
        assert(all.take(cards.len() as int) =~= all);
    }
    r
}

/// The cards of a collection, as references.
pub fn card_refs<'a>(cards: &'a Vec<Card>) -> (r: Vec<&'a Card>)
    ensures
        r@.map_values(|c: &Card| *c) == cards@,
{
    let mut r: Vec<&'a Card> = Vec::new();
    let mut k: usize = 0;
    while k < cards.len()
        invariant
            k <= cards@.len(),
            r@.map_values(|c: &Card| *c) == cards@.take(k as int),
        decreases cards.len() - k,
    {
        let ghost before = r@.map_values(|c: &Card| *c);
        r.push(&cards[k]);
        proof {
            assert(r@.map_values(|c: &Card| *c) =~= before.push(cards@[k as int]));
            assert(cards@.take(k + 1) =~= cards@.take(k as int).push(cards@[k as int]));
        }
        k = k + 1;
    }
    proof {
        assert(cards@.take(cards.len() as int) =~= cards@);
    }
    r
}

/// The message for a family hash that no card of the collection has.
pub open spec fn no_family_message(family: Seq<u8>) -> Seq<char> {
    "No cloze family found with hash "@ + hex_text(family)
}

/// The outcome of looking up a cloze family by its hexadecimal hash: the
/// hash's parse error, the message for an unknown family, or the family's
/// cards in collection order.
pub open spec fn cloze_family_lookup(cards: Seq<Card>, text: Seq<char>) -> Result<Seq<Card>, Seq<char>> {
    let bytes = encode_utf8(text);
    if !is_digest_hex(bytes) {
        Err(blake3_hex_error_text(bytes))
    } else if family_cards(cards, digest_of_hex(bytes)).len() == 0 {
        Err(no_family_message(digest_of_hex(bytes)))
    } else {
        Ok(family_cards(cards, digest_of_hex(bytes)))
    }
}

/// The cards of the cloze family whose hash is written `family_hex`.
pub fn find_cloze_family<'a>(cards: &'a Vec<Card>, family_hex: &str) -> (r: Result<Vec<&'a Card>, ErrorReport>)
    ensures
        r is Ok <==> cloze_family_lookup(cards@, family_hex@) is Ok,
        r matches Ok(v) ==> cloze_family_lookup(cards@, family_hex@) == Ok::<Seq<Card>, Seq<char>>(
            v@.map_values(|c: &Card| *c),
        ),
        r matches Err(e) ==> cloze_family_lookup(cards@, family_hex@) == Err::<Seq<Card>, Seq<char>>(e@),
{
    let family = match CardHash::from_hex(family_hex) {
        Ok(h) => h,
        Err(e) => {
            return Err(e);
        },
    };
    let refs = card_refs(cards);
    let clozes = cards_in_family(&refs, &family);
    if clozes.len() == 0 {
        let mut m = String::new();
        m.append("No cloze family found with hash ");
        m.append(family.to_hex().as_str());
        proof {
            reveal_strlit("No cloze family found with hash ");
        }
        return Err(ErrorReport::new(m));
    }
    Ok(clozes)
}

/// The sum of a field over a sequence of deck statistics.
pub open spec fn sum_of(stats: Seq<DeckStats>, field: spec_fn(DeckStats) -> usize) -> nat
    decreases stats.len(),
{
    if stats.len() == 0 {
        0
    } else {
        sum_of(stats.drop_last(), field) + field(stats.last()) as nat
    }
}

/// The sum over a concatenation is the sum of the sums.
proof fn lemma_sum_concat(a: Seq<DeckStats>, b: Seq<DeckStats>, field: spec_fn(DeckStats) -> usize)
    ensures
        sum_of(a + b, field) == sum_of(a, field) + sum_of(b, field),
    decreases b.len(),
{
    if b.len() == 0 {
        assert(a + b =~= a);
    } else {
        assert((a + b).drop_last() =~= a + b.drop_last());
        lemma_sum_concat(a, b.drop_last(), field);
    }
}

/// The sum over a prefix is at most the sum over the whole.
proof fn lemma_sum_prefix(s: Seq<DeckStats>, k: int, field: spec_fn(DeckStats) -> usize)
    requires
        0 <= k <= s.len(),
    ensures
        sum_of(s.take(k), field) <= sum_of(s, field),
    decreases s.len(),
{
    if k < s.len() {
        assert(s.drop_last().take(k) =~= s.take(k));
        lemma_sum_prefix(s.drop_last(), k, field);
    } else {
        assert(s.take(k) =~= s);
    }
}

/// The sum over the first `g` groups, and then the first `i` entries of
/// group `g`, is at most the sum over all groups.
proof fn lemma_sum_members_prefix(
    groups: Seq<(char, Vec<DeckStats>)>,
    g: int,
    i: int,
    field: spec_fn(DeckStats) -> usize,
)
    requires
        0 <= g < groups.len(),
        0 <= i <= groups[g].1@.len(),
    ensures
        sum_of(members(groups.take(g)) + groups[g].1@.take(i), field) <= sum_of(members(groups), field),
    decreases groups.len(),
{
    let x = groups[g].1@;
    lemma_sum_concat(members(groups.take(g)), x.take(i), field);
    lemma_sum_prefix(x, i, field);
    assert(groups.take(g + 1).drop_last() =~= groups.take(g));
    lemma_sum_concat(members(groups.take(g)), x, field);
    if g + 1 == groups.len() {
        assert(groups.take(g + 1) =~= groups);
    } else {
        assert(groups.drop_last().take(g) =~= groups.take(g));
        assert(groups.drop_last()[g] == groups[g]);
        lemma_sum_members_prefix(groups.drop_last(), g, x.len() as int, field);
        assert(x.take(x.len() as int) =~= x);
        lemma_sum_concat(members(groups.drop_last()), groups.last().1@, field);
    }
}

/// The total cards, due cards and new cards over all groups, `None` where a
/// sum does not fit in a `usize`.
pub fn deck_totals(groups: &Vec<(char, Vec<DeckStats>)>) -> (r: Option<(usize, usize, usize)>)
    ensures
        r is Some <==> (sum_of(members(groups@), |s: DeckStats| s.total) <= usize::MAX
            && sum_of(members(groups@), |s: DeckStats| s.due) <= usize::MAX
            && sum_of(members(groups@), |s: DeckStats| s.new) <= usize::MAX),
        r matches Some(t) ==> (t.0 == sum_of(members(groups@), |s: DeckStats| s.total)
            && t.1 == sum_of(members(groups@), |s: DeckStats| s.due)
            && t.2 == sum_of(members(groups@), |s: DeckStats| s.new)),
{
    let ghost ft = |s: DeckStats| s.total;
    let ghost fd = |s: DeckStats| s.due;
    let ghost fnew = |s: DeckStats| s.new;
    let mut total: usize = 0;
    let mut due: usize = 0;
    let mut new: usize = 0;
    let mut g: usize = 0;
    while g < groups.len()
        invariant
            g <= groups@.len(),
            ft == (|s: DeckStats| s.total),
            fd == (|s: DeckStats| s.due),
            fnew == (|s: DeckStats| s.new),
            total == sum_of(members(groups@.take(g as int)), ft),
            due == sum_of(members(groups@.take(g as int)), fd),
            new == sum_of(members(groups@.take(g as int)), fnew),
        decreases groups.len() - g,
    {
        let group = &groups[g].1;
        let ghost base = members(groups@.take(g as int));
        let mut i: usize = 0;
        proof {
            assert(base + group@.take(0) =~= base);
        }
        while i < group.len()
            invariant
                g < groups@.len(),
                ft == (|s: DeckStats| s.total),
                fd == (|s: DeckStats| s.due),
                fnew == (|s: DeckStats| s.new),
                group@ == groups@[g as int].1@,
                base == members(groups@.take(g as int)),
                i <= group@.len(),
                total == sum_of(base + group@.take(i as int), ft),
                due == sum_of(base + group@.take(i as int), fd),
                new == sum_of(base + group@.take(i as int), fnew),
            decreases group.len() - i,
        {
            let s = &group[i];
            let ghost next = base + group@.take(i + 1);
            proof {
                assert(next.drop_last() =~= base + group@.take(i as int));
                assert(next.last() == *s);
                lemma_sum_members_prefix(groups@, g as int, i + 1, ft);
                lemma_sum_members_prefix(groups@, g as int, i + 1, fd);
                lemma_sum_members_prefix(groups@, g as int, i + 1, fnew);
                assert(sum_of(next, ft) == total + s.total);
                assert(sum_of(next, fd) == due + s.due);
                assert(sum_of(next, fnew) == new + s.new);
            }
            match total.checked_add(s.total) {
                Some(x) => {
                    total = x;
                },
                None => {
                    return None;
                },
            }
            match due.checked_add(s.due) {
                Some(x) => {
                    due = x;
                },
                None => {
                    return None;
                },
            }
            match new.checked_add(s.new) {
                Some(x) => {
                    new = x;
                },
                None => {
                    return None;
                },
            }
            i = i + 1;
        }
        proof {
            assert(groups@.take(g + 1).drop_last() =~= groups@.take(g as int));
            assert(group@.take(group@.len() as int) =~= group@);
        }
        g = g + 1;
    }
    proof {
        assert(groups@.take(groups@.len() as int) =~= groups@);
    }
    Some((total, due, new))
}


/// The shown hashes of a sequence of cards.
pub open spec fn shown_keys(cards: Seq<Card>) -> Seq<Seq<u8>> {
    cards.map_values(|c: Card| c.shown_digest())
}

/// Does a card of the sequence have the shown hash `key`?
proof fn lemma_shown_keys_contains(s: Seq<Card>, key: Seq<u8>)
    ensures
        shown_keys(s).to_set().contains(key) <==> exists|i: int| 0 <= i < s.len() && (#[trigger] s[i]).shown_digest() == key,
{
    if shown_keys(s).to_set().contains(key) {
        let i = choose|i: int| 0 <= i < shown_keys(s).len() && shown_keys(s)[i] == key;
        assert(s[i].shown_digest() == key);
    }
    if exists|i: int| 0 <= i < s.len() && (#[trigger] s[i]).shown_digest() == key {
        let i = choose|i: int| 0 <= i < s.len() && (#[trigger] s[i]).shown_digest() == key;
        assert(shown_keys(s)[i] == key);
    }
}

/// The number of shown hashes of a deck is the number of distinct shown
/// hashes among its cards.
proof fn lemma_shown_count_is_key_count(cards: Seq<Card>, name: Seq<char>)
    ensures
        shown_in_deck(cards, name) == shown_keys(deck_cards(cards, name)).to_set().len(),
    decreases cards.len(),
{
    broadcast use vstd::seq_lib::seq_to_set_is_finite;
    let dc = deck_cards(cards, name);
    if cards.len() == 0 {
        reveal_with_fuel(Seq::filter, 1);
        assert(shown_keys(dc).to_set() =~= Set::<Seq<u8>>::empty());
    } else {
        let prev = cards.drop_last();
        let c = cards.last();
        let dp = deck_cards(prev, name);
        lemma_shown_count_is_key_count(prev, name);
        reveal_with_fuel(Seq::filter, 1);
        if c.deck() == name {
            assert(dc == dp.push(c));
            let key = c.shown_digest();
            assert(shown_keys(dc) =~= shown_keys(dp) + seq![key]);
            Seq::lemma_to_set_insert_commutes(shown_keys(dp), key);
            vstd::set::axiom_set_insert_len(shown_keys(dp).to_set(), key);
            lemma_shown_keys_contains(dp, key);
            if shown_in(prev, name, key) {
                let j = choose|j: int| 0 <= j < prev.len() && prev[j].deck() == name && (#[trigger] prev[j]).shown_digest() == key;
                prev.lemma_filter_contains(|x: Card| x.deck() == name, j);
                let i = choose|i: int| 0 <= i < dp.len() && dp[i] == prev[j];
                assert(dp[i].shown_digest() == key);
            } else {
                assert forall|i: int| 0 <= i < dp.len() implies (#[trigger] dp[i]).shown_digest() != key by {
                    prev.lemma_filter_pred(|x: Card| x.deck() == name, i);
                    assert(dp.contains(dp[i]));
                    prev.lemma_filter_contains_rev(|x: Card| x.deck() == name, dp[i]);
                    let j = choose|j: int| 0 <= j < prev.len() && prev[j] == dp[i];
                    assert(prev[j].deck() == name);
                }
            }
        } else {
            assert(dc == dp);
        }
    }
}

/// The deck page lists as many cards as the index page counts for the
/// deck: a visible selection of a deck's cards has one entry per shown hash.
pub proof fn lemma_visible_count(vis: Seq<Card>, cards: Seq<Card>, name: Seq<char>)
    requires
        is_visible_selection(vis, deck_cards(cards, name)),
    ensures
        vis.len() == shown_in_deck(cards, name),
{
    let dc = deck_cards(cards, name);
    let kv = shown_keys(vis);
    assert forall|i: int, j: int| 0 <= i < kv.len() && 0 <= j < kv.len() && i != j implies kv[i] != kv[j] by {
        lemma_bytes_lt_irreflexive(kv[i]);
        if i < j {
            assert(bytes_lt(vis[i].shown_digest(), vis[j].shown_digest()));
        } else {
            assert(bytes_lt(vis[j].shown_digest(), vis[i].shown_digest()));
        }
    }
    kv.unique_seq_to_set();
    assert forall|key: Seq<u8>| kv.to_set().contains(key) <==> shown_keys(dc).to_set().contains(key) by {
        lemma_shown_keys_contains(vis, key);
        lemma_shown_keys_contains(dc, key);
        if kv.to_set().contains(key) {
            let r = choose|r: int| 0 <= r < vis.len() && (#[trigger] vis[r]).shown_digest() == key;
            assert(is_first_of_deck(dc, vis[r]));
            reveal(is_first_of_deck);
            let i = choose|i: int| 0 <= i < dc.len() && no_earlier(dc, i) && #[trigger] dc[i] == vis[r];
            assert(dc[i].shown_digest() == key);
        }
        if shown_keys(dc).to_set().contains(key) {
            let i = choose|i: int| 0 <= i < dc.len() && (#[trigger] dc[i]).shown_digest() == key;
            assert(lists_key(vis, dc[i].shown_digest()));
            reveal(lists_key);
            let r = choose|r: int| 0 <= r < vis.len() && (#[trigger] vis[r]).shown_digest() == dc[i].shown_digest();
            assert(vis[r].shown_digest() == key);
        }
    }
    assert(kv.to_set() =~= shown_keys(dc).to_set());
    lemma_shown_count_is_key_count(cards, name);
}


/// The family page of a cloze card is found from the hexadecimal text of its
/// family hash (what its card URL carries), and lists the card.
pub proof fn lemma_family_lookup_finds_card(cards: Seq<Card>, i: int, family: CardHash)
    requires
        0 <= i < cards.len(),
        cards[i].family() == Some(family@),
    ensures
        cloze_family_lookup(cards, hex_text(family@)) == Ok::<Seq<Card>, Seq<char>>(family_cards(cards, family@)),
        family_cards(cards, family@).contains(cards[i]),
{
    family.lemma_len();
    lemma_hex_roundtrip(family@);
    cards.lemma_filter_contains(|c: Card| c.family() == Some(family@), i);
}

/// How many cards of deck `name` there are.
pub open spec fn deck_size(cards: Seq<Card>, name: Seq<char>) -> nat
    decreases cards.len(),
{
    if cards.len() == 0 {
        0
    } else {
        deck_size(cards.drop_last(), name) + if cards.last().deck() == name {
            1nat
        } else {
            0nat
        }
    }
}

/// A deck shows at most as many cards as it has, and each of its cards is
/// counted at most once as due or new.
pub proof fn lemma_stats_bounded(cards: Seq<Card>, rows: Seq<(CardHash, Option<Date>)>, name: Seq<char>, today: Date)
    ensures
        shown_in_deck(cards, name) <= deck_size(cards, name),
        due_in_deck(cards, rows, name, today) + new_in_deck(cards, rows, name) <= deck_size(cards, name),
    decreases cards.len(),
{
    if cards.len() > 0 {
        lemma_stats_bounded(cards.drop_last(), rows, name, today);
    }
}

} // verus!
