//! Planning a drill session: which cards are new to the database, which are
//! due, and the deck filter, new-card limit, sibling burying and card limit
//! applied to them.

use vstd::prelude::*;

use crate::card::Card;
use crate::card_hash::contains_digest;
use crate::card_hash::hash_in;
use crate::card_hash::CardHash;
use crate::date::Timestamp;

verus! {

/// How many rating buttons the drill offers.
#[derive(Clone, Copy, Debug, PartialEq, Eq, Structural)]
pub enum AnswerControls {
    /// Show all four rating buttons (Forgot/Hard/Good/Easy).
    Full,
    /// Show only two rating buttons (Forgot/Good).
    Binary,
}

impl AnswerControls {
    /// The name of the setting: `full` or `binary`.
    pub fn name(&self) -> (s: &'static str)
        ensures
            *self == AnswerControls::Full ==> s@ == "full"@,
            *self == AnswerControls::Binary ==> s@ == "binary"@,
    {
        match self {
            AnswerControls::Full => "full",
            AnswerControls::Binary => "binary",
        }
    }
}

/// Configuration of a drill session.
pub struct ServerConfig {
    pub directory: Option<String>,
    pub host: String,
    pub resource_hostname: String,
    pub port: u16,
    pub session_started_at: Timestamp,
    pub card_limit: Option<usize>,
    pub new_card_limit: Option<usize>,
    pub deck_filter: Option<String>,
    pub shuffle: bool,
    pub answer_controls: AnswerControls,
    pub bury_siblings: bool,
}

/// Is a family hash among the families of `cards`?
pub open spec fn family_seen(cards: Seq<Card>, f: Seq<u8>) -> bool {
    exists|i: int| 0 <= i < cards.len() && (#[trigger] cards[i]).family() == Some(f)
}

/// The cards with every cloze card dropped whose family already occurred
/// earlier in the sequence.
pub open spec fn buried(cards: Seq<Card>) -> Seq<Card>
    decreases cards.len(),
{
    if cards.len() == 0 {
        cards
    } else {
        let rest = buried(cards.drop_last());
        let c = cards.last();
        match c.family() {
            Some(f) => if family_seen(cards.drop_last(), f) {
                rest
            } else {
                rest.push(c)
            },
            None => rest.push(c),
        }
    }
}

/// Keep one card per cloze family (the first); basic cards are all kept.
pub fn bury_siblings(deck: Vec<Card>) -> (result: Vec<Card>)
    ensures
        result@ == buried(deck@),
{
    let mut seen: Vec<CardHash> = Vec::new();
    let mut result: Vec<Card> = Vec::new();
    let mut k: usize = 0;
    while k < deck.len()
        invariant
            k <= deck@.len(),
            result@ == buried(deck@.take(k as int)),
            forall|f: Seq<u8>| contains_digest(seen@, f) <==> family_seen(deck@.take(k as int), f),
        decreases deck.len() - k,
    {
        let card = &deck[k];
        let ghost prev = deck@.take(k as int);
        let ghost next = deck@.take(k + 1);
        proof {
            assert(next.drop_last() =~= prev);
            assert(next.last() == *card);
        }
        let ghost old_seen = seen@;
        match card.family_hash() {
            Some(f) => {
                if !hash_in(&seen, &f) {
                    seen.push(f);
                    result.push(card.clone());
                }
            },
            None => {
                result.push(card.clone());
            },
        }
        proof {
            assert forall|g: Seq<u8>| contains_digest(seen@, g) <==> family_seen(next, g) by {
                if contains_digest(seen@, g) {
                    let i = choose|i: int| 0 <= i < seen@.len() && (#[trigger] seen@[i])@ == g;
                    if i < old_seen.len() {
                        assert(seen@[i] == old_seen[i]);
                        assert(contains_digest(old_seen, g));
                        assert(family_seen(prev, g));
                        let j = choose|j: int| 0 <= j < prev.len() && (#[trigger] prev[j]).family() == Some(g);
                        assert(next[j] == prev[j]);
                    } else {
                        assert(next[k as int] == *card);
                    }
                }
                if family_seen(next, g) {
                    let j = choose|j: int| 0 <= j < next.len() && (#[trigger] next[j]).family() == Some(g);
                    if j < k {
                        assert(prev[j] == next[j]);
                        assert(family_seen(prev, g));
                        assert(contains_digest(old_seen, g));
                        let i = choose|i: int| 0 <= i < old_seen.len() && (#[trigger] old_seen[i])@ == g;
                        assert(seen@[i] == old_seen[i]);
                    } else {
                        if contains_digest(old_seen, g) {
                            let i = choose|i: int| 0 <= i < old_seen.len() && (#[trigger] old_seen[i])@ == g;
                            assert(seen@[i] == old_seen[i]);
                        } else {
                            assert(seen@[old_seen.len() as int]@ == g);
                        }
                    }
                }
            }
        }
        k = k + 1;
    }
    proof {
        assert(deck@.take(deck.len() as int) =~= deck@);
    }
    result
}

/// The number of new cards among `cards` (paired with their newness).
pub open spec fn new_count(cards: Seq<(Card, bool)>) -> nat
    decreases cards.len(),
{
    if cards.len() == 0 {
        0
    } else {
        new_count(cards.drop_last()) + if cards.last().1 {
            1nat
        } else {
            0nat
        }
    }
}

/// The cards with new cards past the first `limit` new ones dropped.
pub open spec fn limit_new(cards: Seq<(Card, bool)>, limit: nat) -> Seq<(Card, bool)>
    decreases cards.len(),
{
    if cards.len() == 0 {
        cards
    } else {
        let rest = limit_new(cards.drop_last(), limit);
        if cards.last().1 && new_count(rest) >= limit {
            rest
        } else {
            rest.push(cards.last())
        }
    }
}

/// The cards of one deck, if a deck filter is given.
pub open spec fn in_deck(cards: Seq<(Card, bool)>, filter: Option<Seq<char>>) -> Seq<(Card, bool)> {
    match filter {
        Some(d) => cards.filter(|p: (Card, bool)| p.0.deck() == d),
        None => cards,
    }
}

/// The session deck: the deck filter, then the new-card limit, then (if
/// asked) burying siblings, then the card limit.
pub open spec fn filtered_deck(
    cards: Seq<(Card, bool)>,
    deck_filter: Option<Seq<char>>,
    new_card_limit: Option<usize>,
    bury: bool,
    card_limit: Option<usize>,
) -> Seq<Card> {
    let a = in_deck(cards, deck_filter);
    let b = match new_card_limit {
        Some(l) => limit_new(a, l as nat),
        None => a,
    };
    let c = b.map_values(|p: (Card, bool)| p.0);
    let d = if bury {
        buried(c)
    } else {
        c
    };
    match card_limit {
        Some(l) => if l < d.len() {
            d.take(l as int)
        } else {
            d
        },
        None => d,
    }
}

/// Every card left after burying siblings is a card of the deck.
pub proof fn lemma_buried_from_deck(cards: Seq<Card>, k: int)
    requires
        0 <= k < buried(cards).len(),
    ensures
        exists|m: int| 0 <= m < cards.len() && #[trigger] cards[m] == buried(cards)[k],
    decreases cards.len(),
{
    let rest = buried(cards.drop_last());
    if k < rest.len() {
        lemma_buried_from_deck(cards.drop_last(), k);
        let m = choose|m: int| 0 <= m < cards.drop_last().len() && #[trigger] cards.drop_last()[m] == rest[k];
        assert(cards[m] == cards.drop_last()[m]);
    } else {
        assert(buried(cards)[k] == cards[cards.len() - 1]);
    }
}

/// After burying siblings no two cards share a family.
pub proof fn lemma_buried_one_per_family(cards: Seq<Card>)
    ensures
        forall|i: int, j: int|
            0 <= i < j < buried(cards).len() && (#[trigger] buried(cards)[i]).family() is Some
                ==> buried(cards)[i].family() != (#[trigger] buried(cards)[j]).family(),
    decreases cards.len(),
{
    if cards.len() > 0 {
        let prev = cards.drop_last();
        let rest = buried(prev);
        lemma_buried_one_per_family(prev);
        let b = buried(cards);
        assert forall|i: int, j: int|
            0 <= i < j < b.len() && (#[trigger] b[i]).family() is Some implies b[i].family() != (#[trigger] b[j]).family() by {
            if j < rest.len() {
                assert(b[i] == rest[i] && b[j] == rest[j]);
            } else {
                assert(b[i] == rest[i]);
                lemma_buried_from_deck(prev, i);
                let m = choose|m: int| 0 <= m < prev.len() && #[trigger] prev[m] == rest[i];
                if b[i].family() == b[j].family() {
                    assert(family_seen(prev, b[i].family()->0));
                }
            }
        }
    }
}

/// A deck with at most one card per family is left as it is by burying.
pub proof fn lemma_buried_unique(cards: Seq<Card>)
    requires
        forall|i: int, j: int|
            0 <= i < j < cards.len() && (#[trigger] cards[i]).family() is Some ==> cards[i].family() != (
            #[trigger] cards[j]).family(),
    ensures
        buried(cards) == cards,
    decreases cards.len(),
{
    if cards.len() > 0 {
        let prev = cards.drop_last();
        assert forall|i: int, j: int|
            0 <= i < j < prev.len() && (#[trigger] prev[i]).family() is Some implies prev[i].family() != (
            #[trigger] prev[j]).family() by {
            assert(prev[i] == cards[i] && prev[j] == cards[j]);
        }
        lemma_buried_unique(prev);
        if let Some(f) = cards.last().family() {
            if family_seen(prev, f) {
                let i = choose|i: int| 0 <= i < prev.len() && (#[trigger] prev[i]).family() == Some(f);
                assert(cards[i] == prev[i]);
                assert(cards[cards.len() - 1] == cards.last());
            }
        }
        assert(prev.push(cards.last()) =~= cards);
    }
}

/// Burying siblings twice is burying them once.
pub proof fn lemma_buried_idempotent(cards: Seq<Card>)
    ensures
        buried(buried(cards)) == buried(cards),
{
    lemma_buried_one_per_family(cards);
    lemma_buried_unique(buried(cards));
}

/// Burying siblings keeps every family of the deck: its first card stays.
pub proof fn lemma_buried_keeps_families(cards: Seq<Card>, f: Seq<u8>)
    requires
        family_seen(cards, f),
    ensures
        family_seen(buried(cards), f),
    decreases cards.len(),
{
    let prev = cards.drop_last();
    let rest = buried(prev);
    if family_seen(prev, f) {
        lemma_buried_keeps_families(prev, f);
        let i = choose|i: int| 0 <= i < rest.len() && (#[trigger] rest[i]).family() == Some(f);
        assert(buried(cards)[i] == rest[i]);
    } else {
        let j = choose|j: int| 0 <= j < cards.len() && (#[trigger] cards[j]).family() == Some(f);
        if j < prev.len() {
            assert(prev[j] == cards[j]);
        }
        assert(buried(cards) == rest.push(cards.last()));
        assert(buried(cards)[rest.len() as int] == cards.last());
    }
}

/// Burying siblings keeps every card without a family.
pub proof fn lemma_buried_keeps_basic(cards: Seq<Card>, k: int)
    requires
        0 <= k < cards.len(),
        cards[k].family() is None,
    ensures
        buried(cards).contains(cards[k]),
    decreases cards.len(),
{
    let prev = cards.drop_last();
    if k < prev.len() {
        lemma_buried_keeps_basic(prev, k);
        assert(prev[k] == cards[k]);
        let r = choose|r: int| 0 <= r < buried(prev).len() && buried(prev)[r] == prev[k];
        assert(buried(cards)[r] == buried(prev)[r]);
    } else {
        assert(buried(cards)[buried(prev).len() as int] == cards[k]);
    }
}

/// The new-card limit keeps `limit` new cards, or all of them if there are
/// fewer, and every card that is not new.
pub proof fn lemma_limit_new_counts(cards: Seq<(Card, bool)>, limit: nat)
    ensures
        new_count(limit_new(cards, limit)) == if new_count(cards) < limit {
            new_count(cards)
        } else {
            limit
        },
        limit_new(cards, limit).len() - new_count(limit_new(cards, limit)) == cards.len() - new_count(cards),
    decreases cards.len(),
{
    if cards.len() > 0 {
        lemma_limit_new_counts(cards.drop_last(), limit);
        let rest = limit_new(cards.drop_last(), limit);
        if !(cards.last().1 && new_count(rest) >= limit) {
            assert(rest.push(cards.last()).drop_last() =~= rest);
        }
    }
}

/// Every card the new-card limit keeps is a card of the deck.
proof fn lemma_limit_new_from_deck(cards: Seq<(Card, bool)>, limit: nat, k: int)
    requires
        0 <= k < limit_new(cards, limit).len(),
    ensures
        exists|m: int| 0 <= m < cards.len() && #[trigger] cards[m] == limit_new(cards, limit)[k],
    decreases cards.len(),
{
    let prev = cards.drop_last();
    let rest = limit_new(prev, limit);
    if k < rest.len() {
        lemma_limit_new_from_deck(prev, limit, k);
        let m = choose|m: int| 0 <= m < prev.len() && #[trigger] prev[m] == rest[k];
        assert(cards[m] == prev[m]);
    } else {
        assert(limit_new(cards, limit)[k] == cards[cards.len() - 1]);
    }
}

/// The session deck holds only cards of the deck it was made from, and
/// with a deck filter only cards of that deck.
pub proof fn lemma_filtered_from_deck(
    cards: Seq<(Card, bool)>,
    deck_filter: Option<Seq<char>>,
    new_card_limit: Option<usize>,
    bury: bool,
    card_limit: Option<usize>,
    k: int,
)
    requires
        0 <= k < filtered_deck(cards, deck_filter, new_card_limit, bury, card_limit).len(),
    ensures
        exists|m: int|
            0 <= m < cards.len() && (#[trigger] cards[m]).0 == filtered_deck(
                cards,
                deck_filter,
                new_card_limit,
                bury,
                card_limit,
            )[k],
        deck_filter matches Some(d) ==> filtered_deck(cards, deck_filter, new_card_limit, bury, card_limit)[k].deck() == d,
{
    let pred = |p: (Card, bool)| p.0.deck() == deck_filter->0;
    let a = in_deck(cards, deck_filter);
    let b = match new_card_limit {
        Some(l) => limit_new(a, l as nat),
        None => a,
    };
    let c = b.map_values(|p: (Card, bool)| p.0);
    let d = if bury {
        buried(c)
    } else {
        c
    };
    let result = filtered_deck(cards, deck_filter, new_card_limit, bury, card_limit);
    assert(result[k] == d[k]);
    // The card of `d` comes from `c`.
    let kc: int = if bury {
        lemma_buried_from_deck(c, k);
        choose|m: int| 0 <= m < c.len() && #[trigger] c[m] == d[k]
    } else {
        k
    };
    assert(c[kc] == d[k]);
    // The entry of `c` comes from `b`, and that of `b` from `a`.
    let kb = kc;
    assert(b[kb].0 == d[k]);
    let ka: int = match new_card_limit {
        Some(l) => {
            lemma_limit_new_from_deck(a, l as nat, kb);
            choose|m: int| 0 <= m < a.len() && #[trigger] a[m] == b[kb]
        },
        None => kb,
    };
    assert(a[ka] == b[kb]);
    // The entry of `a` comes from `cards`.
    match deck_filter {
        Some(dn) => {
            cards.lemma_filter_pred(pred, ka);
            assert(a.contains(a[ka]));
            cards.lemma_filter_contains_rev(pred, a[ka]);
            let m = choose|m: int| 0 <= m < cards.len() && cards[m] == a[ka];
            assert(cards[m].0 == result[k]);
        },
        None => {
            assert(cards[ka].0 == result[k]);
        },
    }
}

/// With a deck filter, the new-card limit, burying and the card limit apply
/// to that deck's cards only: the session is the one made, with no filter,
/// from the deck's cards.
pub proof fn lemma_deck_filter_first(
    cards: Seq<(Card, bool)>,
    deck: Seq<char>,
    new_card_limit: Option<usize>,
    bury: bool,
    card_limit: Option<usize>,
)
    ensures
        filtered_deck(cards, Some(deck), new_card_limit, bury, card_limit) == filtered_deck(
            in_deck(cards, Some(deck)),
            None,
            new_card_limit,
            bury,
            card_limit,
        ),
{
}

/// Under a new-card limit `l` with a deck filter, the new cards kept are
/// `l` of the deck's new cards, or all of them if there are fewer, and all
/// of the deck's cards that are not new are kept.
pub proof fn lemma_deck_new_cards(cards: Seq<(Card, bool)>, deck: Seq<char>, l: usize)
    ensures
        ({
            let of_deck = cards.filter(|p: (Card, bool)| p.0.deck() == deck);
            let kept = limit_new(in_deck(cards, Some(deck)), l as nat);
            &&& new_count(kept) == if new_count(of_deck) < l { new_count(of_deck) } else { l as nat }
            &&& kept.len() - new_count(kept) == of_deck.len() - new_count(of_deck)
        }),
{
    lemma_limit_new_counts(in_deck(cards, Some(deck)), l as nat);
}

/// A card limit caps the number of cards in the session deck.
pub proof fn lemma_card_limit(
    cards: Seq<(Card, bool)>,
    deck_filter: Option<Seq<char>>,
    new_card_limit: Option<usize>,
    bury: bool,
    card_limit: Option<usize>,
)
    ensures
        card_limit matches Some(l) ==> filtered_deck(cards, deck_filter, new_card_limit, bury, card_limit).len() <= l,
{
}

/// The next state of the xorshift generator that orders a shuffled session.
pub open spec fn next_seed(x: u64) -> u64 {
    let a = x ^ (x << 13u64);
    let b = a ^ (a >> 7u64);
    b ^ (b << 17u64)
}

/// The deck shuffled from `seed`: each step advances the generator and
/// takes the card at the new state modulo the number of cards left.
pub open spec fn shuffled(cards: Seq<Card>, seed: u64) -> Seq<Card>
    decreases cards.len(),
{
    if cards.len() == 0 {
        cards
    } else {
        let s = next_seed(seed);
        let j = (s as int) % (cards.len() as int);
        seq![cards[j]] + shuffled(cards.remove(j), s)
    }
}

/// One step of the xorshift generator.
fn advance_seed(x: u64) -> (y: u64)
    ensures
        y == next_seed(x),
{
    let a = x ^ (x << 13u64);
    let b = a ^ (a >> 7u64);
    b ^ (b << 17u64)
}

/// Shuffles a session deck: the order is the one `shuffled` gives for the
/// seed, and the cards are the deck's.
pub fn shuffle(deck: Vec<Card>, seed: u64) -> (result: Vec<Card>)
    ensures
        result@ == shuffled(deck@, seed),
        result@.to_multiset() == deck@.to_multiset(),
{
    broadcast use vstd::seq_lib::group_to_multiset_ensures;
    broadcast use vstd::multiset::group_multiset_axioms;

    let ghost all = deck@;
    let mut rest = deck;
    let mut out: Vec<Card> = Vec::new();
    let mut x: u64 = seed;
    proof {
        assert(out@ + shuffled(rest@, x) =~= shuffled(all, seed));
        assert(out@.to_multiset() =~= vstd::multiset::Multiset::empty());
        assert(out@.to_multiset().add(rest@.to_multiset()) =~= all.to_multiset());
    }
    while rest.len() > 0
        invariant
            out@ + shuffled(rest@, x) == shuffled(all, seed),
            out@.to_multiset().add(rest@.to_multiset()) == all.to_multiset(),
        decreases rest.len(),
    {
        let ghost x0 = x;
        x = advance_seed(x);
        let n = rest.len();
        let j = (x % (n as u64)) as usize;
        let ghost before = rest@;
        let ghost out0 = out@;
        let card = rest.remove(j);
        out.push(card);
        proof {
            assert(j as int == (x as int) % (n as int));
            assert(shuffled(before, x0) == seq![before[j as int]] + shuffled(before.remove(j as int), x));
            assert(rest@ == before.remove(j as int));
            assert(out@ + shuffled(rest@, x) =~= out0 + shuffled(before, x0));
            vstd::seq_lib::to_multiset_remove(before, j as int);
            vstd::seq_lib::to_multiset_build(out0, card);
            vstd::seq_lib::to_multiset_contains(before, card);
            assert(before.contains(before[j as int]));
            assert(out@ == out0.push(card));
            assert(out0.push(card).to_multiset() == out0.to_multiset().insert(card));
            assert(before.to_multiset().count(card) > 0);
            assert(out@.to_multiset().add(rest@.to_multiset()) =~= out0.to_multiset().add(before.to_multiset()));
        }
    }
    proof {
        assert(shuffled(rest@, x) =~= Seq::<Card>::empty());
        assert(out@ + Seq::<Card>::empty() =~= out@);
        assert(rest@.to_multiset() =~= vstd::multiset::Multiset::empty());
    }
    out
}

/// The cards paired with whether each is new.
pub open spec fn paired(deck: Seq<Card>, is_new: Seq<bool>) -> Seq<(Card, bool)> {
    Seq::new(deck.len(), |i: int| (deck[i], is_new[i]))
}

/// The configuration's deck filter, as text.
pub open spec fn deck_filter_of(config: ServerConfig) -> Option<Seq<char>> {
    match config.deck_filter {
        Some(f) => Some(f@),
        None => None,
    }
}

/// Apply the deck filter, the new-card limit, sibling burying and the card
/// limit of the configuration; `is_new[i]` says whether `deck[i]` has never
/// been reviewed.
pub fn filter_deck(deck: Vec<Card>, is_new: &Vec<bool>, config: &ServerConfig) -> (result: Vec<Card>)
    requires
        is_new@.len() == deck@.len(),
    ensures
        result@ == filtered_deck(
            paired(deck@, is_new@),
            deck_filter_of(*config),
            config.new_card_limit,
            config.bury_siblings,
            config.card_limit,
        ),
{
    let ghost all = paired(deck@, is_new@);
    // Apply the deck filter.
    let mut a: Vec<(Card, bool)> = Vec::new();
    let mut k: usize = 0;
    while k < deck.len()
        invariant
            k <= deck@.len(),
            is_new@.len() == deck@.len(),
            all == paired(deck@, is_new@),
            a@ == in_deck(all.take(k as int), deck_filter_of(*config)),
        decreases deck.len() - k,
    {
        let keep = match &config.deck_filter {
            Some(f) => *deck[k].deck_name() == *f,
            None => true,
        };
        proof {
            assert(all.take(k + 1).drop_last() =~= all.take(k as int));
            assert(all.take(k + 1).last() == (deck@[k as int], is_new@[k as int]));
            reveal_with_fuel(Seq::filter, 1);
        }
        if keep {
            a.push((deck[k].clone(), is_new[k]));
        }
        proof {
            match deck_filter_of(*config) {
                Some(d) => {
                    let p = |q: (Card, bool)| q.0.deck() == d;
                    reveal_with_fuel(Seq::filter, 1);
                    if keep {
                        assert(all.take(k + 1).filter(p) =~= all.take(k as int).filter(p).push(
                            all.take(k + 1).last(),
                        ));
                    } else {
                        assert(all.take(k + 1).filter(p) =~= all.take(k as int).filter(p));
                    }
                },
                None => {
                    assert(a@ =~= all.take(k + 1));
                },
            }
        }
        k = k + 1;
    }
    proof {
        assert(all.take(deck.len() as int) =~= all);
    }
    // Apply the new card limit.
    let b: Vec<(Card, bool)> = match config.new_card_limit {
        Some(limit) => {
            let mut b: Vec<(Card, bool)> = Vec::new();
            let mut new_seen: usize = 0;
            let mut j: usize = 0;
            while j < a.len()
                invariant
                    j <= a@.len(),
                    b@ == limit_new(a@.take(j as int), limit as nat),
                    new_seen == new_count(b@),
                    new_seen <= limit,
                decreases a.len() - j,
            {
                proof {
                    assert(a@.take(j + 1).drop_last() =~= a@.take(j as int));
                    assert(a@.take(j + 1).last() == a@[j as int]);
                }
                let (card, fresh) = (&a[j].0, a[j].1);
                if fresh {
                    if new_seen < limit {
                        b.push((card.clone(), fresh));
                        new_seen = new_seen + 1;
                        proof {
                            assert(b@.drop_last() == limit_new(a@.take(j as int), limit as nat));
                        }
                    }
                } else {
                    b.push((card.clone(), fresh));
                    proof {
                        assert(b@.drop_last() == limit_new(a@.take(j as int), limit as nat));
                    }
                }
                j = j + 1;
            }
            proof {
                assert(a@.take(a.len() as int) =~= a@);
            }
            b
        },
        None => a,
    };
    // Drop the newness.
    let mut c: Vec<Card> = Vec::new();
    let mut j: usize = 0;
    while j < b.len()
        invariant
            j <= b@.len(),
            c@ == b@.take(j as int).map_values(|p: (Card, bool)| p.0),
        decreases b.len() - j,
    {
        c.push(b[j].0.clone());
        proof {
            assert(b@.take(j + 1).map_values(|p: (Card, bool)| p.0) =~= b@.take(j as int).map_values(
                |p: (Card, bool)| p.0,
            ).push(b@[j as int].0));
        }
        j = j + 1;
    }
    proof {
        assert(b@.take(b.len() as int) =~= b@);
    }
    let d = if config.bury_siblings {
        bury_siblings(c)
    } else {
        c
    };
    // Apply the card limit.
    match config.card_limit {
        Some(limit) => {
            if limit < d.len() {
                let mut e: Vec<Card> = Vec::new();
                let mut j: usize = 0;
                while j < limit
                    invariant
                        j <= limit < d@.len(),
                        e@ == d@.take(j as int),
                    decreases limit - j,
                {
                    e.push(d[j].clone());
                    proof {
                        assert(d@.take(j + 1) =~= d@.take(j as int).push(d@[j as int]));
                    }
                    j = j + 1;
                }
                e
            } else {
                d
            }
        },
        None => d,
    }
}

/// The hashes of the cards whose hash the database does not hold yet (new
/// cards to add), in card order.
pub fn unknown_hashes(cards: &Vec<Card>, db_hashes: &Vec<CardHash>) -> (new: Vec<CardHash>)
    ensures
        new@.map_values(|h: CardHash| h@) == cards@.filter(
            |c: Card| !contains_digest(db_hashes@, c.digest()),
        ).map_values(|c: Card| c.digest()),
{
    let mut new: Vec<CardHash> = Vec::new();
    let mut k: usize = 0;
    while k < cards.len()
        invariant
            k <= cards@.len(),
            new@.map_values(|h: CardHash| h@) == cards@.take(k as int).filter(
                |c: Card| !contains_digest(db_hashes@, c.digest()),
            ).map_values(|c: Card| c.digest()),
        decreases cards.len() - k,
    {
        let h = cards[k].hash();
        let known = hash_in(db_hashes, &h);
        proof {
            let p = |c: Card| !contains_digest(db_hashes@, c.digest());
            let f = |c: Card| c.digest();
            assert(cards@.take(k + 1).drop_last() =~= cards@.take(k as int));
            assert(cards@.take(k + 1).last() == cards@[k as int]);
            reveal_with_fuel(Seq::filter, 1);
            if !known {
                assert(cards@.take(k + 1).filter(p) =~= cards@.take(k as int).filter(p).push(cards@[k as int]));
            } else {
                assert(cards@.take(k + 1).filter(p) =~= cards@.take(k as int).filter(p));
            }
        }
        let ghost before = new@;
        if !known {
            new.push(h);
            proof {
                assert(new@.map_values(|h: CardHash| h@) =~= before.map_values(|h: CardHash| h@).push(h@));
                assert(cards@.take(k + 1).filter(|c: Card| !contains_digest(db_hashes@, c.digest())).map_values(|c: Card| c.digest())
                    =~= cards@.take(k as int).filter(|c: Card| !contains_digest(db_hashes@, c.digest())).map_values(|c: Card| c.digest()).push(h@));
            }
        }
        k = k + 1;
    }
    proof {
        assert(cards@.take(cards.len() as int) =~= cards@);
    }
    new
}

/// The cards whose hash is among `due`, in order.
pub fn due_cards(cards: &Vec<Card>, due: &Vec<CardHash>) -> (result: Vec<Card>)
    ensures
        result@ == cards@.filter(|c: Card| contains_digest(due@, c.digest())),
{
    let mut result: Vec<Card> = Vec::new();
    let mut k: usize = 0;
    while k < cards.len()
        invariant
            k <= cards@.len(),
            result@ == cards@.take(k as int).filter(|c: Card| contains_digest(due@, c.digest())),
        decreases cards.len() - k,
    {
        let keep = hash_in(due, &cards[k].hash());
        proof {
            let p = |c: Card| contains_digest(due@, c.digest());
            assert(cards@.take(k + 1).drop_last() =~= cards@.take(k as int));
            assert(cards@.take(k + 1).last() == cards@[k as int]);
            reveal_with_fuel(Seq::filter, 1);
        }
        if keep {
            result.push(cards[k].clone());
        }
        k = k + 1;
    }
    proof {
        assert(cards@.take(cards.len() as int) =~= cards@);
    }
    result
}

} // verus!
