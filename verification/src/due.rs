//! Which cards are due on a date, and how many per deck.

use vstd::prelude::*;

use crate::card::Card;
use crate::card_hash::contains_digest;
use crate::card_hash::hash_in;
use crate::card_hash::CardHash;
use crate::date::in_calendar;
use crate::date::parsed_ymd;
use crate::date::Date;
use crate::error::ErrorReport;
use crate::text::chars_less;
use crate::text::chars_lt;
use crate::text::chars_of;
use crate::text::str_equals;

verus! {

/// The message for a date argument that is not understood.
pub open spec fn invalid_date_message(s: Seq<char>) -> Seq<char> {
    "invalid date '"@ + s
        + "'. Valid values are `today`, `tomorrow`, or a date in `YYYY-MM-DD` format."@
}

/// The date a date argument names, given today's date.
pub open spec fn date_arg(s: Seq<char>, today: Date) -> Result<Date, Seq<char>> {
    if s == "today"@ {
        Ok(today)
    } else if s == "tomorrow"@ {
        Ok(Date { days: (today.days + 1) as i32 })
    } else {
        match parsed_ymd(s) {
            Some(d) => Ok(Date { days: d as i32 }),
            None => Err(invalid_date_message(s)),
        }
    }
}

/// Parse a date argument: `today`, `tomorrow` (relative to the given
/// date), or `YYYY-MM-DD`.
pub fn parse_date_arg(s: &str, today: Date) -> (r: Result<Date, ErrorReport>)
    requires
        in_calendar(today),
    ensures
        r is Ok <==> date_arg(s@, today) is Ok,
        r matches Ok(d) ==> date_arg(s@, today) == Ok::<Date, Seq<char>>(d),
        r matches Err(e) ==> date_arg(s@, today) == Err::<Date, Seq<char>>(e@),
        r matches Ok(d) ==> (s@ != "today"@ && s@ != "tomorrow"@ ==> parsed_ymd(s@) == Some(
            d.days as int,
        )),
        s@ == "tomorrow"@ ==> (r matches Ok(d) && d.days == today.days + 1),
{
    proof {
        reveal_strlit("today");
        reveal_strlit("tomorrow");
        assert("today"@.len() != "tomorrow"@.len());
    }
    if str_equals(s, "today") {
        Ok(today)
    } else if str_equals(s, "tomorrow") {
        Ok(today.next())
    } else {
        match Date::parse(s) {
            Some(d) => Ok(d),
            None => {
                let mut m = String::new();
                m.append("invalid date '");
                m.append(s);
                m.append("'. Valid values are `today`, `tomorrow`, or a date in `YYYY-MM-DD` format.");
                Err(ErrorReport::new(m))
            },
        }
    }
}

/// Is a card with this due date due by `date`? Never-reviewed cards (no due
/// date) are due; otherwise it is due when its date is `date` or earlier.
pub open spec fn due_by(due: Option<Date>, date: Date) -> bool {
    match due {
        None => true,
        Some(d) => d.days <= date.days,
    }
}

/// Is a card with this due date due exactly on `date`?
pub open spec fn due_exactly(due: Option<Date>, date: Date) -> bool {
    due == Some(date)
}

/// The due-date query for `date`: for today, what a drill session pulls in
/// (overdue, never-reviewed and due today); for any other date, an exact
/// match on that date.
pub open spec fn counts_as_due(due: Option<Date>, date: Date, today: Date) -> bool {
    if date == today {
        due_by(due, date)
    } else {
        due_exactly(due, date)
    }
}

/// The hashes, among `rows` of (card hash, due date), that the due-date
/// query for `date` selects, in order.
pub open spec fn selected_due(rows: Seq<(CardHash, Option<Date>)>, date: Date, today: Date) -> Seq<CardHash> {
    rows.filter(|r: (CardHash, Option<Date>)| counts_as_due(r.1, date, today)).map_values(
        |r: (CardHash, Option<Date>)| r.0,
    )
}

/// The hashes of the cards due by `date` (see `counts_as_due`).
pub fn select_due(rows: &Vec<(CardHash, Option<Date>)>, date: Date, today: Date) -> (due: Vec<CardHash>)
    ensures
        due@ == selected_due(rows@, date, today),
{
    let mut due: Vec<CardHash> = Vec::new();
    let mut k: usize = 0;
    while k < rows.len()
        invariant
            k <= rows@.len(),
            due@ == selected_due(rows@.take(k as int), date, today),
        decreases rows.len() - k,
    {
        let (h, d) = rows[k];
        let selected = if date == today {
            match d {
                None => true,
                Some(x) => x.days <= date.days,
            }
        } else {
            match d {
                None => false,
                Some(x) => x == date,
            }
        };
        proof {
            let p = |r: (CardHash, Option<Date>)| counts_as_due(r.1, date, today);
            assert(rows@.take(k + 1).drop_last() =~= rows@.take(k as int));
            assert(rows@.take(k + 1).last() == (h, d));
            reveal_with_fuel(Seq::filter, 1);
            assert(selected == p((h, d)));
        }
        if selected {
            due.push(h);
        }
        proof {
            let p = |r: (CardHash, Option<Date>)| counts_as_due(r.1, date, today);
            let f = |r: (CardHash, Option<Date>)| r.0;
            reveal_with_fuel(Seq::filter, 1);
            if selected {
                assert(rows@.take(k + 1).filter(p) =~= rows@.take(k as int).filter(p).push((h, d)));
                assert(rows@.take(k + 1).filter(p).map_values(f) =~= rows@.take(k as int).filter(
                    p,
                ).map_values(f).push(h));
            } else {
                assert(rows@.take(k + 1).filter(p) =~= rows@.take(k as int).filter(p));
            }
        }
        k = k + 1;
    }
    proof {
        assert(rows@.take(rows.len() as int) =~= rows@);
    }
    due
}

/// A card due by a date is due by every later date.
pub proof fn lemma_due_by_later(due: Option<Date>, earlier: Date, later: Date)
    requires
        due_by(due, earlier),
        earlier.days <= later.days,
    ensures
        due_by(due, later),
{
}

/// A card that a drill on one day would pull in is pulled in by a drill on
/// any later day.
pub proof fn lemma_select_due_later(rows: Seq<(CardHash, Option<Date>)>, earlier: Date, later: Date, h: CardHash)
    requires
        earlier.days <= later.days,
        selected_due(rows, earlier, earlier).contains(h),
    ensures
        selected_due(rows, later, later).contains(h),
{
    let p1 = |r: (CardHash, Option<Date>)| counts_as_due(r.1, earlier, earlier);
    let p2 = |r: (CardHash, Option<Date>)| counts_as_due(r.1, later, later);
    let f = |r: (CardHash, Option<Date>)| r.0;
    let s1 = rows.filter(p1);
    let i = choose|i: int| 0 <= i < s1.map_values(f).len() && s1.map_values(f)[i] == h;
    rows.lemma_filter_pred(p1, i);
    assert(s1.contains(s1[i]));
    rows.lemma_filter_contains_rev(p1, s1[i]);
    let k = choose|k: int| 0 <= k < rows.len() && rows[k] == s1[i];
    lemma_due_by_later(rows[k].1, earlier, later);
    rows.lemma_filter_contains(p2, k);
    let s2 = rows.filter(p2);
    let m = choose|m: int| 0 <= m < s2.len() && s2[m] == rows[k];
    assert(s2.map_values(f)[m] == h);
}

/// The hashes, among `rows` of (card hash, due date), due exactly on
/// `date`, in order.
pub open spec fn due_on_date(rows: Seq<(CardHash, Option<Date>)>, date: Date) -> Seq<CardHash> {
    rows.filter(|r: (CardHash, Option<Date>)| due_exactly(r.1, date)).map_values(
        |r: (CardHash, Option<Date>)| r.0,
    )
}

/// The hashes of the cards due exactly on `date`.
pub fn select_due_on(rows: &Vec<(CardHash, Option<Date>)>, date: Date) -> (due: Vec<CardHash>)
    ensures
        due@ == due_on_date(rows@, date),
{
    let mut due: Vec<CardHash> = Vec::new();
    let mut k: usize = 0;
    while k < rows.len()
        invariant
            k <= rows@.len(),
            due@ == due_on_date(rows@.take(k as int), date),
        decreases rows.len() - k,
    {
        let (h, d) = rows[k];
        let selected = match d {
            None => false,
            Some(x) => x == date,
        };
        proof {
            let p = |r: (CardHash, Option<Date>)| due_exactly(r.1, date);
            assert(rows@.take(k + 1).drop_last() =~= rows@.take(k as int));
            assert(rows@.take(k + 1).last() == (h, d));
            reveal_with_fuel(Seq::filter, 1);
            assert(selected == p((h, d)));
        }
        if selected {
            due.push(h);
        }
        proof {
            let p = |r: (CardHash, Option<Date>)| due_exactly(r.1, date);
            let f = |r: (CardHash, Option<Date>)| r.0;
            reveal_with_fuel(Seq::filter, 1);
            if selected {
                assert(rows@.take(k + 1).filter(p) =~= rows@.take(k as int).filter(p).push((h, d)));
                assert(rows@.take(k + 1).filter(p).map_values(f) =~= rows@.take(k as int).filter(
                    p,
                ).map_values(f).push(h));
            } else {
                assert(rows@.take(k + 1).filter(p) =~= rows@.take(k as int).filter(p));
            }
        }
        k = k + 1;
    }
    proof {
        assert(rows@.take(rows.len() as int) =~= rows@);
    }
    due
}

/// The number of `cards` of deck `deck` whose hash is among `due`.
pub open spec fn deck_due_count(cards: Seq<Card>, due: Seq<CardHash>, deck: Seq<char>) -> nat
    decreases cards.len(),
{
    if cards.len() == 0 {
        0
    } else {
        deck_due_count(cards.drop_last(), due, deck) + if cards.last().deck() == deck
            && contains_digest(due, cards.last().digest()) {
            1nat
        } else {
            0nat
        }
    }
}

/// The number of `cards` whose hash is among `due`.
pub open spec fn due_total(cards: Seq<Card>, due: Seq<CardHash>) -> nat
    decreases cards.len(),
{
    if cards.len() == 0 {
        0
    } else {
        due_total(cards.drop_last(), due) + if contains_digest(due, cards.last().digest()) {
            1nat
        } else {
            0nat
        }
    }
}

/// Is the report a correct count of due cards per deck: decks in order of
/// name, each deck with a due card listed once with its number of due
/// cards, and no other deck?
pub open spec fn is_due_report(report: Seq<(String, usize)>, cards: Seq<Card>, due: Seq<CardHash>) -> bool {
    &&& forall|i: int, j: int|
        0 <= i < j < report.len() ==> chars_lt(#[trigger] report[i].0@, #[trigger] report[j].0@)
    &&& forall|i: int|
        0 <= i < report.len() ==> (#[trigger] report[i]).1 == deck_due_count(cards, due, report[i].0@)
            && report[i].1 > 0
    &&& forall|c: int|
        0 <= c < cards.len() && contains_digest(due, (#[trigger] cards[c]).digest()) ==> exists|i: int|
            0 <= i < report.len() && (#[trigger] report[i]).0@ == cards[c].deck()
}

/// A deck with due cards has a due card.
proof fn lemma_deck_due_witness(cards: Seq<Card>, due: Seq<CardHash>, deck: Seq<char>)
    requires
        deck_due_count(cards, due, deck) > 0,
    ensures
        exists|c: int|
            0 <= c < cards.len() && (#[trigger] cards[c]).deck() == deck && contains_digest(
                due,
                cards[c].digest(),
            ),
    decreases cards.len(),
{
    let last = cards.last();
    if !(last.deck() == deck && contains_digest(due, last.digest())) {
        lemma_deck_due_witness(cards.drop_last(), due, deck);
        let c = choose|c: int|
            0 <= c < cards.drop_last().len() && (#[trigger] cards.drop_last()[c]).deck() == deck
                && contains_digest(due, cards.drop_last()[c].digest());
        assert(cards[c] == cards.drop_last()[c]);
    } else {
        assert(cards[cards.len() - 1] == last);
    }
}

/// Finds where a deck name stands in a report sorted by name: the first
/// entry not ordered before it, and whether that entry has the name.
fn find_deck(report: &Vec<(String, usize)>, name: &Vec<char>) -> (r: (usize, bool))
    requires
        forall|i: int, j: int|
            0 <= i < j < report@.len() ==> chars_lt(#[trigger] report@[i].0@, #[trigger] report@[j].0@),
    ensures
        r.0 <= report@.len(),
        forall|i: int| 0 <= i < r.0 ==> chars_lt((#[trigger] report@[i]).0@, name@),
        r.1 ==> r.0 < report@.len() && report@[r.0 as int].0@ == name@,
        !r.1 ==> r.0 == report@.len() || chars_lt(name@, report@[r.0 as int].0@),
{
    let mut p: usize = 0;
    while p < report.len() && chars_less(&chars_of(report[p].0.as_str()), name)
        invariant
            p <= report@.len(),
            forall|i: int| 0 <= i < p ==> chars_lt((#[trigger] report@[i]).0@, name@),
        decreases report.len() - p,
    {
        p = p + 1;
    }
    if p < report.len() {
        let later = chars_less(name, &chars_of(report[p].0.as_str()));
        proof {
            crate::text::lemma_chars_lt_total(report@[p as int].0@, name@);
        }
        (p, !later)
    } else {
        (p, false)
    }
}

/// Count the number of cards due in each deck (decks without due cards are
/// left out, the others in order of name), and the total.
pub fn due_report(cards: &Vec<Card>, due: &Vec<CardHash>) -> (r: (Vec<(String, usize)>, usize))
    ensures
        is_due_report(r.0@, cards@, due@),
        r.1 == due_total(cards@, due@),
{
    let mut report: Vec<(String, usize)> = Vec::new();
    let mut total: usize = 0;
    let mut k: usize = 0;
    while k < cards.len()
        invariant
            k <= cards@.len(),
            is_due_report(report@, cards@.take(k as int), due@),
            total == due_total(cards@.take(k as int), due@),
            total <= k,
            forall|i: int| 0 <= i < report@.len() ==> (#[trigger] report@[i]).1 <= k,
        decreases cards.len() - k,
    {
        let card = &cards[k];
        let ghost prev = cards@.take(k as int);
        let ghost next = cards@.take(k + 1);
        proof {
            assert(next.drop_last() =~= prev);
            assert(next.last() == *card);
            assert forall|c: int| 0 <= c < k implies next[c] == prev[c] by {}
        }
        if hash_in(due, &card.hash()) {
            let name = card.deck_name();
            let name_chars = chars_of(name.as_str());
            let (p, found) = find_deck(&report, &name_chars);
            let ghost old_report = report@;
            if found {
                let (n, c) = report.remove(p);
                report.insert(p, (n, c + 1));
                proof {
                    assert(report@ =~= old_report.update(p as int, (n, (c + 1) as usize)));
                    assert forall|i: int| 0 <= i < report@.len() && i != p implies report@[i].0@ != name@ by {
                        if i < p {
                            crate::text::lemma_chars_lt_irreflexive(name@);
                        } else {
                            assert(chars_lt(old_report[p as int].0@, old_report[i].0@));
                            crate::text::lemma_chars_lt_irreflexive(name@);
                        }
                    }
                    assert forall|c2: int| 0 <= c2 < next.len() && contains_digest(due@, (#[trigger] next[c2]).digest())
                        implies exists|i: int| 0 <= i < report@.len() && (#[trigger] report@[i]).0@ == next[c2].deck() by {
                        if c2 < k {
                            let i = choose|i: int| 0 <= i < old_report.len() && (#[trigger] old_report[i]).0@ == prev[c2].deck();
                            assert(report@[i].0@ == old_report[i].0@);
                        } else {
                            assert(report@[p as int].0@ == next[c2].deck());
                        }
                    }
                }
            } else {
                report.insert(p, (name.clone(), 1));
                proof {
                    if deck_due_count(prev, due@, name@) > 0 {
                        lemma_deck_due_witness(prev, due@, name@);
                        let c2 = choose|c2: int|
                            0 <= c2 < prev.len() && (#[trigger] prev[c2]).deck() == name@ && contains_digest(
                                due@,
                                prev[c2].digest(),
                            );
                        let i = choose|i: int| 0 <= i < old_report.len() && (#[trigger] old_report[i]).0@ == prev[c2].deck();
                        if i < p {
                            crate::text::lemma_chars_lt_irreflexive(name@);
                        } else if i == p {
                            crate::text::lemma_chars_lt_irreflexive(name@);
                        } else {
                            assert(chars_lt(old_report[p as int].0@, old_report[i].0@));
                            crate::text::lemma_chars_lt_transitive(name@, old_report[p as int].0@, old_report[i].0@);
                            crate::text::lemma_chars_lt_irreflexive(name@);
                        }
                    }
                    assert forall|i: int, j: int| 0 <= i < j < report@.len() implies chars_lt(
                        #[trigger] report@[i].0@,
                        #[trigger] report@[j].0@,
                    ) by {
                        if j < p {
                        } else if j == p {
                        } else if i < p {
                            assert(chars_lt(old_report[i].0@, name@));
                            if j - 1 > p {
                                assert(chars_lt(old_report[p as int].0@, old_report[j - 1].0@));
                                crate::text::lemma_chars_lt_transitive(name@, old_report[p as int].0@, old_report[j - 1].0@);
                            }
                            crate::text::lemma_chars_lt_transitive(old_report[i].0@, name@, old_report[j - 1].0@);
                        } else if i == p {
                            if j - 1 > p {
                                assert(chars_lt(old_report[p as int].0@, old_report[j - 1].0@));
                                crate::text::lemma_chars_lt_transitive(name@, old_report[p as int].0@, old_report[j - 1].0@);
                            }
                        } else {
                            assert(report@[i] == old_report[i - 1]);
                            assert(report@[j] == old_report[j - 1]);
                        }
                    }
                    assert forall|i: int| 0 <= i < report@.len() && i != p implies report@[i].0@ != name@ by {
                        if i < p {
                            crate::text::lemma_chars_lt_irreflexive(name@);
                        } else {
                            assert(report@[i] == old_report[i - 1]);
                            if i - 1 > p {
                                assert(chars_lt(old_report[p as int].0@, old_report[i - 1].0@));
                                crate::text::lemma_chars_lt_transitive(name@, old_report[p as int].0@, old_report[i - 1].0@);
                            }
                            crate::text::lemma_chars_lt_irreflexive(name@);
                        }
                    }
                    assert forall|c2: int| 0 <= c2 < next.len() && contains_digest(due@, (#[trigger] next[c2]).digest())
                        implies exists|i: int| 0 <= i < report@.len() && (#[trigger] report@[i]).0@ == next[c2].deck() by {
                        if c2 < k {
                            let i = choose|i: int| 0 <= i < old_report.len() && (#[trigger] old_report[i]).0@ == prev[c2].deck();
                            if i < p {
                                assert(report@[i] == old_report[i]);
                            } else {
                                assert(report@[i + 1] == old_report[i]);
                            }
                        } else {
                            assert(report@[p as int].0@ == next[c2].deck());
                        }
                    }
                }
            }
            total = total + 1;
        } else {
            proof {
                assert forall|c2: int| 0 <= c2 < next.len() && contains_digest(due@, (#[trigger] next[c2]).digest())
                    implies exists|i: int| 0 <= i < report@.len() && (#[trigger] report@[i]).0@ == next[c2].deck() by {
                    assert(c2 < k);
                    assert(next[c2] == prev[c2]);
                }
            }
        }
        k = k + 1;
    }
    proof {
        assert(cards@.take(cards.len() as int) =~= cards@);
    }
    (report, total)
}


/// The sum of the counts of a report.
pub open spec fn report_sum(report: Seq<(String, usize)>) -> nat
    decreases report.len(),
{
    if report.len() == 0 {
        0
    } else {
        report_sum(report.drop_last()) + report.last().1 as nat
    }
}

/// The sum, over the named decks, of their due counts.
spec fn names_sum(names: Seq<Seq<char>>, cards: Seq<Card>, due: Seq<CardHash>) -> nat
    decreases names.len(),
{
    if names.len() == 0 {
        0
    } else {
        names_sum(names.drop_last(), cards, due) + deck_due_count(cards, due, names.last())
    }
}

/// How many times `d` occurs among `names`.
spec fn occurrences(names: Seq<Seq<char>>, d: Seq<char>) -> nat
    decreases names.len(),
{
    if names.len() == 0 {
        0
    } else {
        occurrences(names.drop_last(), d) + if names.last() == d {
            1nat
        } else {
            0nat
        }
    }
}

/// A name occurs once in a list of distinct names that holds it, else not
/// at all.
proof fn lemma_occurrences_distinct(names: Seq<Seq<char>>, d: Seq<char>)
    requires
        forall|i: int, j: int| 0 <= i < j < names.len() ==> #[trigger] names[i] != #[trigger] names[j],
    ensures
        occurrences(names, d) == if names.contains(d) {
            1nat
        } else {
            0nat
        },
    decreases names.len(),
{
    if names.len() > 0 {
        let prev = names.drop_last();
        lemma_occurrences_distinct(prev, d);
        if names.last() == d {
            if prev.contains(d) {
                let i = choose|i: int| 0 <= i < prev.len() && prev[i] == d;
                assert(names[i] == names[names.len() - 1]);
            }
        } else {
            if names.contains(d) {
                let i = choose|i: int| 0 <= i < names.len() && names[i] == d;
                assert(prev[i] == d);
            }
        }
    }
}

/// Adding a card to the collection adds, to the sum over the named decks,
/// one per occurrence of its deck if it is due.
proof fn lemma_names_sum_step(names: Seq<Seq<char>>, cards: Seq<Card>, due: Seq<CardHash>)
    requires
        cards.len() > 0,
    ensures
        names_sum(names, cards, due) == names_sum(names, cards.drop_last(), due) + if contains_digest(
            due,
            cards.last().digest(),
        ) {
            occurrences(names, cards.last().deck())
        } else {
            0nat
        },
    decreases names.len(),
{
    if names.len() > 0 {
        lemma_names_sum_step(names.drop_last(), cards, due);
    }
}

/// The sum over distinct deck names covering every deck with a due card is
/// the number of due cards.
proof fn lemma_names_sum_total(names: Seq<Seq<char>>, cards: Seq<Card>, due: Seq<CardHash>)
    requires
        forall|i: int, j: int| 0 <= i < j < names.len() ==> #[trigger] names[i] != #[trigger] names[j],
        forall|c: int| 0 <= c < cards.len() && contains_digest(due, (#[trigger] cards[c]).digest()) ==> names.contains(cards[c].deck()),
    ensures
        names_sum(names, cards, due) == due_total(cards, due),
    decreases cards.len(),
{
    if cards.len() == 0 {
        lemma_names_sum_empty(names, cards, due);
    } else {
        let prev = cards.drop_last();
        assert forall|c: int| 0 <= c < prev.len() && contains_digest(due, (#[trigger] prev[c]).digest()) implies names.contains(prev[c].deck()) by {
            assert(prev[c] == cards[c]);
        }
        lemma_names_sum_total(names, prev, due);
        lemma_names_sum_step(names, cards, due);
        lemma_occurrences_distinct(names, cards.last().deck());
        if contains_digest(due, cards.last().digest()) {
            assert(cards[cards.len() - 1] == cards.last());
        }
    }
}

/// Over no cards every deck count is zero.
proof fn lemma_names_sum_empty(names: Seq<Seq<char>>, cards: Seq<Card>, due: Seq<CardHash>)
    requires
        cards.len() == 0,
    ensures
        names_sum(names, cards, due) == 0,
    decreases names.len(),
{
    if names.len() > 0 {
        lemma_names_sum_empty(names.drop_last(), cards, due);
    }
}

/// The report's counts add up to its total: the total printed is the sum of
/// the per-deck counts printed.
pub proof fn lemma_due_report_total(report: Seq<(String, usize)>, cards: Seq<Card>, due: Seq<CardHash>)
    requires
        is_due_report(report, cards, due),
    ensures
        report_sum(report) == due_total(cards, due),
{
    let names = report.map_values(|e: (String, usize)| e.0@);
    assert forall|i: int, j: int| 0 <= i < j < names.len() implies #[trigger] names[i] != #[trigger] names[j] by {
        crate::text::lemma_chars_lt_irreflexive(names[i]);
        assert(chars_lt(report[i].0@, report[j].0@));
    }
    assert forall|c: int| 0 <= c < cards.len() && contains_digest(due, (#[trigger] cards[c]).digest()) implies names.contains(cards[c].deck()) by {
        let i = choose|i: int| 0 <= i < report.len() && (#[trigger] report[i]).0@ == cards[c].deck();
        assert(names[i] == cards[c].deck());
    }
    lemma_report_sum_names(report, cards, due);
    lemma_names_sum_total(names, cards, due);
}

/// A report's sum is the sum over its deck names of their due counts.
proof fn lemma_report_sum_names(report: Seq<(String, usize)>, cards: Seq<Card>, due: Seq<CardHash>)
    requires
        forall|i: int| 0 <= i < report.len() ==> (#[trigger] report[i]).1 == deck_due_count(cards, due, report[i].0@),
    ensures
        report_sum(report) == names_sum(report.map_values(|e: (String, usize)| e.0@), cards, due),
    decreases report.len(),
{
    if report.len() > 0 {
        let prev = report.drop_last();
        assert forall|i: int| 0 <= i < prev.len() implies (#[trigger] prev[i]).1 == deck_due_count(cards, due, prev[i].0@) by {
            assert(prev[i] == report[i]);
        }
        lemma_report_sum_names(prev, cards, due);
        assert(report.map_values(|e: (String, usize)| e.0@).drop_last() =~= prev.map_values(|e: (String, usize)| e.0@));
        assert(report[report.len() - 1] == report.last());
    }
}

} // verus!
