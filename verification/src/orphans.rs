//! Orphan cards: cards the database knows of that the collection no longer
//! holds.

use vstd::prelude::*;

use crate::card::Card;
use crate::card_hash::contains_digest;
use crate::card_hash::hash_in;
use crate::card_hash::insert_sorted;
use crate::card_hash::strictly_sorted;
use crate::card_hash::CardHash;

verus! {

/// Is there a card in `cards` with this hash?
pub open spec fn has_card(cards: Seq<Card>, d: Seq<u8>) -> bool {
    exists|c: int| 0 <= c < cards.len() && (#[trigger] cards[c]).digest() == d
}

/// The hashes of the cards, in order.
pub fn card_hashes(cards: &Vec<Card>) -> (hashes: Vec<CardHash>)
    ensures
        hashes@.len() == cards@.len(),
        forall|i: int| 0 <= i < cards@.len() ==> (#[trigger] hashes@[i])@ == cards@[i].digest(),
{
    let mut hashes: Vec<CardHash> = Vec::new();
    let mut k: usize = 0;
    while k < cards.len()
        invariant
            k <= cards@.len(),
            hashes@.len() == k,
            forall|i: int| 0 <= i < k ==> (#[trigger] hashes@[i])@ == cards@[i].digest(),
        decreases cards.len() - k,
    {
        hashes.push(cards[k].hash());
        k = k + 1;
    }
    hashes
}

/// The orphans among the database's card hashes: those of no card in the
/// collection, sorted (byte-wise) and without repetition.
pub fn get_orphans(db_hashes: &Vec<CardHash>, cards: &Vec<Card>) -> (orphans: Vec<CardHash>)
    ensures
        strictly_sorted(orphans@),
        forall|d: Seq<u8>|
            contains_digest(orphans@, d) <==> (contains_digest(db_hashes@, d) && !has_card(
                cards@,
                d,
            )),
{
    let coll = card_hashes(cards);
    let mut orphans: Vec<CardHash> = Vec::new();
    let mut k: usize = 0;
    while k < db_hashes.len()
        invariant
            k <= db_hashes@.len(),
            coll@.len() == cards@.len(),
            forall|i: int| 0 <= i < cards@.len() ==> (#[trigger] coll@[i])@ == cards@[i].digest(),
            strictly_sorted(orphans@),
            forall|d: Seq<u8>|
                contains_digest(orphans@, d) <==> (contains_digest(db_hashes@.take(k as int), d)
                    && !has_card(cards@, d)),
        decreases db_hashes.len() - k,
    {
        let h = db_hashes[k];
        let in_collection = hash_in(&coll, &h);
        proof {
            assert(in_collection == has_card(cards@, h@)) by {
                if in_collection {
                    let i = choose|i: int| 0 <= i < coll@.len() && (#[trigger] coll@[i])@ == h@;
                    assert(cards@[i].digest() == h@);
                }
                if has_card(cards@, h@) {
                    let c = choose|c: int| 0 <= c < cards@.len() && (#[trigger] cards@[c]).digest() == h@;
                    assert(coll@[c]@ == h@);
                }
            }
        }
        let ghost before = orphans@;
        if !in_collection {
            insert_sorted(&mut orphans, h);
        }
        proof {
            assert forall|d: Seq<u8>|
                contains_digest(db_hashes@.take(k + 1), d) <==> (contains_digest(
                    db_hashes@.take(k as int),
                    d,
                ) || d == h@) by {
                if contains_digest(db_hashes@.take(k + 1), d) {
                    let i = choose|i: int| 0 <= i < k + 1 && (#[trigger] db_hashes@.take(k + 1)[i])@ == d;
                    if i < k {
                        assert(db_hashes@.take(k as int)[i] == db_hashes@.take(k + 1)[i]);
                    }
                }
                if contains_digest(db_hashes@.take(k as int), d) {
                    let i = choose|i: int| 0 <= i < k && (#[trigger] db_hashes@.take(k as int)[i])@ == d;
                    assert(db_hashes@.take(k + 1)[i] == db_hashes@.take(k as int)[i]);
                }
                if d == h@ {
                    assert(db_hashes@.take(k + 1)[k as int] == h);
                }
            }
        }
        k = k + 1;
    }
    proof {
        assert(db_hashes@.take(db_hashes.len() as int) =~= db_hashes@);
    }
    orphans
}

} // verus!
