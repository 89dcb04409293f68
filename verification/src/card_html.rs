//! The HTML faces of cards: the question or the cloze text with its
//! deletion hidden (front), the answer or the revealed deletion (back), and
//! a whole cloze family with every deletion revealed.

use vstd::prelude::*;
use vstd::utf8::*;

use crate::card::Card;
use crate::card::CardContent;
use crate::error::outcome;
use crate::error::ErrorReport;
use crate::markdown::markdown_html;
use crate::markdown::markdown_to_html;
use crate::markdown::markdown_to_html_inline;
use crate::markdown::without_paragraph;
use crate::markdown::MarkdownRenderConfig;
use crate::text::bytes_of;
use crate::text::chars_of;
use crate::text::copy_bytes;
use crate::text::push_byte_range;
use crate::text::push_str_bytes;
use crate::text::replace_chars;
use crate::text::replaced;
use crate::text::string_from_chars;
use crate::text::string_from_utf8;
use crate::text::utf8_error_text;

verus! {

/// `CLOZE_DELETION`: the marker put in place of a deletion before rendering.
pub open spec fn cloze_marker() -> Seq<char> {
    seq!['C', 'L', 'O', 'Z', 'E', '_', 'D', 'E', 'L', 'E', 'T', 'I', 'O', 'N']
}

/// `<span class='cloze'>.............</span>`: a hidden deletion.
pub open spec fn hidden_span() -> Seq<char> {
    seq![
        '<', 's', 'p', 'a', 'n', ' ', 'c', 'l', 'a', 's', 's', '=', '\'', 'c', 'l', 'o', 'z', 'e',
        '\'', '>', '.', '.', '.', '.', '.', '.', '.', '.', '.', '.', '.', '.', '.', '<', '/', 's',
        'p', 'a', 'n', '>',
    ]
}

/// `<span class='cloze-reveal'>{inner}</span>`: a revealed deletion.
pub open spec fn reveal_span(inner: Seq<char>) -> Seq<char> {
    seq![
        '<', 's', 'p', 'a', 'n', ' ', 'c', 'l', 'a', 's', 's', '=', '\'', 'c', 'l', 'o', 'z', 'e',
        '-', 'r', 'e', 'v', 'e', 'a', 'l', '\'', '>',
    ] + inner + seq!['<', '/', 's', 'p', 'a', 'n', '>']
}

/// Text to HTML with the given replacement of the deletion marker, or the
/// first error.
pub open spec fn render_marked(
    config: MarkdownRenderConfig,
    marked: Seq<u8>,
    marker: Seq<char>,
    replacement: Seq<char>,
) -> Result<Seq<char>, Seq<char>> {
    if !valid_utf8(marked) {
        Err(utf8_error_text(marked))
    } else {
        match markdown_html(config, decode_utf8(marked)) {
            Err(m) => Err(m),
            Ok(h) => Ok(replaced(h, marker, replacement)),
        }
    }
}

impl CardContent {
    /// The text bytes of a cloze with the deletion replaced by the marker.
    pub open spec fn marked_bytes(self) -> Seq<u8> {
        match self {
            CardContent::Basic { .. } => seq![],
            CardContent::Cloze { text, start, end } => {
                let b = encode_utf8(text@);
                b.subrange(0, start as int) + encode_utf8(cloze_marker()) + b.subrange(
                    end + 1,
                    b.len() as int,
                )
            },
        }
    }

    /// The front of the card: the question, or the cloze text with the
    /// deletion hidden.
    pub open spec fn front_html(self, config: MarkdownRenderConfig) -> Result<Seq<char>, Seq<char>> {
        match self {
            CardContent::Basic { question, .. } => markdown_html(config, question@),
            CardContent::Cloze { .. } => render_marked(
                config,
                self.marked_bytes(),
                cloze_marker(),
                hidden_span(),
            ),
        }
    }

    /// The back of the card: the answer, or the cloze text with the
    /// deletion revealed (rendered inline).
    pub open spec fn back_html(self, config: MarkdownRenderConfig) -> Result<Seq<char>, Seq<char>> {
        match self {
            CardContent::Basic { answer, .. } => markdown_html(config, answer@),
            CardContent::Cloze { .. } => {
                let deleted = self.deleted_bytes();
                if !valid_utf8(deleted) {
                    Err(utf8_error_text(deleted))
                } else {
                    match markdown_html(config, decode_utf8(deleted)) {
                        Err(m) => Err(m),
                        Ok(full) => render_marked(
                            config,
                            self.marked_bytes(),
                            cloze_marker(),
                            reveal_span(without_paragraph(full)),
                        ),
                    }
                }
            },
        }
    }

    /// The HTML of the front of the card.
    pub fn html_front(&self, config: &MarkdownRenderConfig) -> (r: Result<String, ErrorReport>)
        requires
            self is Basic || self.cloze_span_ok(),
        ensures
            outcome(r) == self.front_html(*config),
    {
        match self {
            CardContent::Basic { question, .. } => markdown_to_html(config, question.as_str()),
            CardContent::Cloze { .. } => {
                let marked = marked_text_bytes(self);
                render_with_marker(config, marked, hidden_span_text())
            },
        }
    }

    /// The HTML of the back of the card.
    pub fn html_back(&self, config: &MarkdownRenderConfig) -> (r: Result<String, ErrorReport>)
        requires
            self is Basic || self.cloze_span_ok(),
        ensures
            outcome(r) == self.back_html(*config),
    {
        match self {
            CardContent::Basic { answer, .. } => markdown_to_html(config, answer.as_str()),
            CardContent::Cloze { text, start, end } => {
                let bytes = bytes_of(text.as_str());
                let deleted = copy_bytes(&bytes, *start, *end + 1);
                let deleted = match string_from_utf8(deleted) {
                    Ok(s) => s,
                    Err(e) => {
                        return Err(ErrorReport::new(e));
                    },
                };
                let deleted_html = match markdown_to_html_inline(config, deleted.as_str()) {
                    Ok(h) => h,
                    Err(e) => {
                        return Err(e);
                    },
                };
                let marked = marked_text_bytes(self);
                render_with_marker(config, marked, reveal_span_text(deleted_html.as_str()))
            },
        }
    }
}

/// The cloze text bytes with the deletion replaced by the marker.
fn marked_text_bytes(c: &CardContent) -> (marked: Vec<u8>)
    requires
        c.cloze_span_ok(),
    ensures
        marked@ == c.marked_bytes(),
{
    match c {
        CardContent::Cloze { text, start, end } => {
            let bytes = bytes_of(text.as_str());
            let mut marked: Vec<u8> = Vec::new();
            push_byte_range(&mut marked, &bytes, 0, *start);
            push_str_bytes(&mut marked, "CLOZE_DELETION");
            push_byte_range(&mut marked, &bytes, *end + 1, bytes.len());
            proof {
                reveal_strlit("CLOZE_DELETION");
                assert("CLOZE_DELETION"@ =~= cloze_marker());
            }
            marked
        },
        CardContent::Basic { .. } => {
            proof {
                assert(false);
            }
            Vec::new()
        },
    }
}

/// Decodes the marked text, renders it, and replaces the marker.
fn render_with_marker(config: &MarkdownRenderConfig, marked: Vec<u8>, replacement: Vec<char>) -> (r: Result<String, ErrorReport>)
    ensures
        outcome(r) == render_marked(*config, marked@, cloze_marker(), replacement@),
{
    let ghost marked_bytes = marked@;
    let text = match string_from_utf8(marked) {
        Ok(s) => s,
        Err(e) => {
            return Err(ErrorReport::new(e));
        },
    };
    let html = match markdown_to_html(config, text.as_str()) {
        Ok(h) => h,
        Err(e) => {
            return Err(e);
        },
    };
    let marker: Vec<char> = marker_chars();
    let out = replace_chars(&chars_of(html.as_str()), &marker, &replacement);
    Ok(string_from_chars(&out))
}

/// The characters of the marker.
fn marker_chars() -> (v: Vec<char>)
    ensures
        v@ == cloze_marker(),
{
    let v = chars_of("CLOZE_DELETION");
    proof {
        reveal_strlit("CLOZE_DELETION");
        assert(v@ =~= cloze_marker());
    }
    v
}

/// The characters of a hidden deletion.
fn hidden_span_text() -> (v: Vec<char>)
    ensures
        v@ == hidden_span(),
{
    let v = chars_of("<span class='cloze'>.............</span>");
    proof {
        reveal_strlit("<span class='cloze'>.............</span>");
        assert(v@ =~= hidden_span());
    }
    v
}

/// The characters of a revealed deletion.
fn reveal_span_text(inner: &str) -> (v: Vec<char>)
    ensures
        v@ == reveal_span(inner@),
{
    let mut s = String::new();
    s.append("<span class='cloze-reveal'>");
    s.append(inner);
    s.append("</span>");
    proof {
        reveal_strlit("<span class='cloze-reveal'>");
        reveal_strlit("</span>");
        assert(s@ =~= reveal_span(inner@));
    }
    chars_of(s.as_str())
}

/// Checks a cloze family from position 0 on, given the text seen so far and
/// the deletion spans collected: the family's text and spans, or the error.
pub open spec fn family_check(
    family: Seq<CardContent>,
    text: Option<Seq<char>>,
    spans: Seq<(usize, usize)>,
) -> Result<(Seq<char>, Seq<(usize, usize)>), Seq<char>>
    decreases family.len(),
{
    if family.len() == 0 {
        match text {
            None => Err("html_back_family called with an empty family"@),
            Some(t) => Ok((t, spans)),
        }
    } else {
        match family[0] {
            CardContent::Basic { .. } => Err("html_back_family called with a basic card"@),
            CardContent::Cloze { text: t, start, end } => match text {
                None => family_check(family.drop_first(), Some(t@), spans.push((start, end))),
                Some(x) => if x == t@ {
                    family_check(family.drop_first(), Some(x), spans.push((start, end)))
                } else {
                    Err("html_back_family called with cards from different cloze families"@)
                },
            },
        }
    }
}

/// Inserts a span after every span that starts no later than it.
pub open spec fn insert_by_start(sorted: Seq<(usize, usize)>, x: (usize, usize)) -> Seq<(usize, usize)>
    decreases sorted.len(),
{
    if sorted.len() == 0 {
        seq![x]
    } else if x.0 < sorted.last().0 {
        insert_by_start(sorted.drop_last(), x).push(sorted.last())
    } else {
        sorted.push(x)
    }
}

/// The spans stably sorted by their start.
pub open spec fn sort_by_start(spans: Seq<(usize, usize)>) -> Seq<(usize, usize)>
    decreases spans.len(),
{
    if spans.len() == 0 {
        spans
    } else {
        insert_by_start(sort_by_start(spans.drop_last()), spans.last())
    }
}

/// Do the spans, taken in order from `cursor` on, follow one another within
/// `n` bytes?
pub open spec fn spans_fit(spans: Seq<(usize, usize)>, n: int, cursor: int) -> bool
    decreases spans.len(),
{
    if spans.len() == 0 {
        cursor <= n
    } else {
        let s = spans[0];
        &&& cursor <= s.0
        &&& s.1 < usize::MAX
        &&& s.0 <= s.1 + 1
        &&& s.1 + 1 <= n
        &&& spans_fit(spans.drop_first(), n, s.1 + 1)
    }
}

/// The deletion spans of a family, in order (a basic card counts as an
/// empty span at the start).
pub open spec fn cloze_spans(family: Seq<CardContent>) -> Seq<(usize, usize)> {
    family.map_values(
        |c: CardContent|
            match c {
                CardContent::Cloze { start, end, .. } => (start, end),
                CardContent::Basic { .. } => (0usize, 0usize),
            },
    )
}

/// Are all cards of the family clozes over the text `t`?
pub open spec fn clozes_of_text(family: Seq<CardContent>, t: Seq<char>) -> bool {
    forall|i: int| 0 <= i < family.len() ==> (#[trigger] family[i] matches CardContent::Cloze { text, .. } && text@ == t)
}

/// Do no two spans start at the same byte?
pub open spec fn distinct_starts(spans: Seq<(usize, usize)>) -> bool {
    forall|i: int, j: int| 0 <= i < j < spans.len() ==> (#[trigger] spans[i]).0 != (#[trigger] spans[j]).0
}

/// Are the spans ordered by start, earlier starts first?
pub open spec fn ordered_by_start(spans: Seq<(usize, usize)>) -> bool {
    forall|i: int, j: int| 0 <= i < j < spans.len() ==> (#[trigger] spans[i]).0 <= (#[trigger] spans[j]).0
}

/// Order on spans: by start, then by end.
spec fn span_leq(a: (usize, usize), b: (usize, usize)) -> bool {
    a.0 < b.0 || (a.0 == b.0 && a.1 <= b.1)
}

/// Checking a family of clozes over one text gives that text and the spans
/// collected so far followed by the family's spans.
proof fn lemma_family_check_clozes(family: Seq<CardContent>, t: Seq<char>, acc: Seq<(usize, usize)>)
    requires
        clozes_of_text(family, t),
    ensures
        family_check(family, Some(t), acc) == Ok::<(Seq<char>, Seq<(usize, usize)>), Seq<char>>(
            (t, acc + cloze_spans(family)),
        ),
    decreases family.len(),
{
    if family.len() == 0 {
        assert(acc + cloze_spans(family) =~= acc);
    } else {
        let rest = family.drop_first();
        assert(family[0] matches CardContent::Cloze { text, .. } && text@ == t);
        assert forall|i: int| 0 <= i < rest.len() implies (#[trigger] rest[i] matches CardContent::Cloze { text, .. } && text@ == t) by {
            assert(rest[i] == family[i + 1]);
        }
        let s0 = cloze_spans(family)[0];
        lemma_family_check_clozes(rest, t, acc.push(s0));
        assert(acc.push(s0) + cloze_spans(rest) =~= acc + cloze_spans(family));
    }
}

/// Inserting by start adds the span to the multiset and keeps the order.
proof fn lemma_insert_by_start_props(sorted: Seq<(usize, usize)>, x: (usize, usize))
    ensures
        insert_by_start(sorted, x).to_multiset() == sorted.to_multiset().insert(x),
        ordered_by_start(sorted) ==> ordered_by_start(insert_by_start(sorted, x)),
    decreases sorted.len(),
{
    broadcast use vstd::seq_lib::group_to_multiset_ensures;
    broadcast use vstd::multiset::group_multiset_axioms;

    if sorted.len() == 0 {
        assert(seq![x] =~= Seq::<(usize, usize)>::empty().push(x));
        assert(sorted =~= Seq::<(usize, usize)>::empty());
        assert(Seq::<(usize, usize)>::empty().to_multiset() =~= vstd::multiset::Multiset::empty());
    } else if x.0 < sorted.last().0 {
        let prev = sorted.drop_last();
        lemma_insert_by_start_props(prev, x);
        let mid = insert_by_start(prev, x);
        assert(sorted =~= prev.push(sorted.last()));
        assert(insert_by_start(sorted, x) == mid.push(sorted.last()));
        assert(mid.push(sorted.last()).to_multiset() =~= sorted.to_multiset().insert(x));
        if ordered_by_start(sorted) {
            assert(ordered_by_start(prev));
            assert forall|i: int| 0 <= i < mid.len() implies (#[trigger] mid[i]).0 <= sorted.last().0 by {
                assert(mid.to_multiset().count(mid[i]) > 0);
                if mid[i] != x {
                    assert(prev.to_multiset().count(mid[i]) > 0);
                    let k = choose|k: int| 0 <= k < prev.len() && prev[k] == mid[i];
                    assert(sorted[k] == prev[k]);
                    assert(sorted[sorted.len() - 1] == sorted.last());
                }
            }
            let r = mid.push(sorted.last());
            assert forall|i: int, j: int| 0 <= i < j < r.len() implies (#[trigger] r[i]).0 <= (#[trigger] r[j]).0 by {
                assert(r[i] == mid[i]);
                if j < mid.len() {
                    assert(r[j] == mid[j]);
                }
            }
        }
    } else {
        assert(insert_by_start(sorted, x) == sorted.push(x));
        if ordered_by_start(sorted) {
            let r = sorted.push(x);
            assert forall|i: int, j: int| 0 <= i < j < r.len() implies (#[trigger] r[i]).0 <= (#[trigger] r[j]).0 by {
                assert(r[i] == sorted[i]);
                if j < sorted.len() {
                    assert(r[j] == sorted[j]);
                } else {
                    assert(sorted[sorted.len() - 1] == sorted.last());
                }
            }
        }
    }
}

/// Sorting by start keeps the spans and orders them.
proof fn lemma_sort_by_start_props(spans: Seq<(usize, usize)>)
    ensures
        sort_by_start(spans).to_multiset() == spans.to_multiset(),
        ordered_by_start(sort_by_start(spans)),
    decreases spans.len(),
{
    broadcast use vstd::seq_lib::group_to_multiset_ensures;

    if spans.len() > 0 {
        lemma_sort_by_start_props(spans.drop_last());
        lemma_insert_by_start_props(sort_by_start(spans.drop_last()), spans.last());
        assert(spans =~= spans.drop_last().push(spans.last()));
    }
}

/// An ordering of spans with the multiset of spans that start at distinct
/// bytes is strictly ordered by the span order.
proof fn lemma_ordered_strict(out: Seq<(usize, usize)>, spans: Seq<(usize, usize)>)
    requires
        ordered_by_start(out),
        out.to_multiset() == spans.to_multiset(),
        distinct_starts(spans),
    ensures
        vstd::relations::sorted_by(out, |a: (usize, usize), b: (usize, usize)| span_leq(a, b)),
{
    broadcast use vstd::seq_lib::group_to_multiset_ensures;
    broadcast use vstd::multiset::group_multiset_axioms;

    assert(spans.no_duplicates()) by {
        assert forall|i: int, j: int| 0 <= i < spans.len() && 0 <= j < spans.len() && i != j implies spans[i] != spans[j] by {
            if i < j {
                assert(spans[i].0 != spans[j].0);
            } else {
                assert(spans[j].0 != spans[i].0);
            }
        }
    }
    spans.lemma_multiset_has_no_duplicates();
    assert forall|x: (usize, usize)| out.to_multiset().contains(x) implies out.to_multiset().count(x) == 1 by {
    }
    out.lemma_multiset_has_no_duplicates_conv();
    assert forall|i: int, j: int| 0 <= i < j < out.len() implies #[trigger] span_leq(out[i], out[j]) by {
        assert(out[i].0 <= out[j].0);
        if out[i].0 == out[j].0 {
            assert(out[i] != out[j]);
            assert(out.to_multiset().count(out[i]) > 0);
            assert(out.to_multiset().count(out[j]) > 0);
            let p = choose|p: int| 0 <= p < spans.len() && spans[p] == out[i];
            let q = choose|q: int| 0 <= q < spans.len() && spans[q] == out[j];
            assert(p != q);
            if p < q {
                assert(spans[p].0 != spans[q].0);
            } else {
                assert(spans[q].0 != spans[p].0);
            }
        }
    }
}

/// Spans with one multiset that start at distinct bytes sort to the same
/// sequence.
pub proof fn lemma_sort_by_start_unique(a: Seq<(usize, usize)>, b: Seq<(usize, usize)>)
    requires
        a.to_multiset() == b.to_multiset(),
        distinct_starts(a),
    ensures
        sort_by_start(a) == sort_by_start(b),
{
    let leq = |x: (usize, usize), y: (usize, usize)| span_leq(x, y);
    lemma_sort_by_start_props(a);
    lemma_sort_by_start_props(b);
    lemma_ordered_strict(sort_by_start(a), a);
    lemma_ordered_strict(sort_by_start(b), a);
    assert(vstd::relations::total_ordering(leq));
    vstd::seq_lib::lemma_sorted_unique(sort_by_start(a), sort_by_start(b), leq);
}

/// The back of a cloze family does not depend on the order in which its
/// cards, and so their deletions, come: two families of clozes over one
/// text with the same deletions, starting at distinct bytes, render alike.
pub proof fn lemma_family_back_order_free(
    config: MarkdownRenderConfig,
    a: Seq<CardContent>,
    b: Seq<CardContent>,
    t: Seq<char>,
)
    requires
        a.len() > 0,
        clozes_of_text(a, t),
        clozes_of_text(b, t),
        cloze_spans(a).to_multiset() == cloze_spans(b).to_multiset(),
        distinct_starts(cloze_spans(a)),
    ensures
        family_back_html(config, a) == family_back_html(config, b),
{
    broadcast use vstd::seq_lib::group_to_multiset_ensures;

    assert(cloze_spans(a).to_multiset().len() == cloze_spans(a).len());
    assert(cloze_spans(b).to_multiset().len() == cloze_spans(b).len());
    assert(b.len() > 0);
    lemma_family_check_clozes(a.drop_first(), t, seq![cloze_spans(a)[0]]);
    lemma_family_check_clozes(b.drop_first(), t, seq![cloze_spans(b)[0]]);
    assert forall|i: int| 0 <= i < a.drop_first().len() implies (#[trigger] a.drop_first()[i] matches CardContent::Cloze { text, .. } && text@ == t) by {
        assert(a.drop_first()[i] == a[i + 1]);
    }
    assert(seq![cloze_spans(a)[0]] + cloze_spans(a.drop_first()) =~= cloze_spans(a));
    assert(seq![cloze_spans(b)[0]] + cloze_spans(b.drop_first()) =~= cloze_spans(b));
    assert(a[0] matches CardContent::Cloze { text, .. } && text@ == t);
    assert(b[0] matches CardContent::Cloze { text, .. } && text@ == t);
    assert(family_check(a, None, seq![]) == Ok::<(Seq<char>, Seq<(usize, usize)>), Seq<char>>((t, cloze_spans(a))));
    assert(family_check(b, None, seq![]) == Ok::<(Seq<char>, Seq<(usize, usize)>), Seq<char>>((t, cloze_spans(b))));
    lemma_sort_by_start_unique(cloze_spans(a), cloze_spans(b));
}

/// Reordering a sequence reorders the values mapped from it alike.
proof fn lemma_map_multiset<A, B>(a: Seq<A>, b: Seq<A>, f: spec_fn(A) -> B)
    requires
        a.to_multiset() == b.to_multiset(),
    ensures
        a.map_values(f).to_multiset() == b.map_values(f).to_multiset(),
    decreases a.len(),
{
    broadcast use vstd::seq_lib::group_to_multiset_ensures;
    broadcast use vstd::multiset::group_multiset_axioms;

    assert(a.to_multiset().len() == a.len());
    assert(b.to_multiset().len() == b.len());
    if a.len() == 0 {
        assert(a.map_values(f) =~= b.map_values(f));
    } else {
        let x = a.last();
        let n = a.len() - 1;
        assert(a.to_multiset().count(a[n]) > 0);
        let j = choose|j: int| 0 <= j < b.len() && b[j] == x;
        let a2 = a.remove(n);
        let b2 = b.remove(j);
        assert(a2.to_multiset() == a.to_multiset().remove(a[n]));
        assert(b2.to_multiset() == b.to_multiset().remove(b[j]));
        lemma_map_multiset(a2, b2, f);
        let ma = a.map_values(f);
        let mb = b.map_values(f);
        assert(ma =~= a2.map_values(f).push(f(x)));
        assert(mb.remove(j) =~= b2.map_values(f));
        assert(mb.remove(j).to_multiset() == mb.to_multiset().remove(mb[j]));
        assert(mb.to_multiset().count(mb[j]) > 0);
        assert(mb.to_multiset() =~= mb.to_multiset().remove(f(x)).insert(f(x)));
    }
}

/// Reordering the cards of a cloze family does not change its back: the
/// cards of a family over one text whose deletions start at distinct bytes,
/// taken in any order, render alike.
pub proof fn lemma_family_back_reorder(
    config: MarkdownRenderConfig,
    family: Seq<CardContent>,
    reordered: Seq<CardContent>,
    t: Seq<char>,
)
    requires
        family.len() > 0,
        clozes_of_text(family, t),
        distinct_starts(cloze_spans(family)),
        reordered.to_multiset() == family.to_multiset(),
    ensures
        family_back_html(config, reordered) == family_back_html(config, family),
{
    broadcast use vstd::seq_lib::group_to_multiset_ensures;

    assert forall|i: int| 0 <= i < reordered.len() implies (#[trigger] reordered[i] matches CardContent::Cloze { text, .. } && text@ == t) by {
        assert(reordered.to_multiset().count(reordered[i]) > 0);
        let k = choose|k: int| 0 <= k < family.len() && family[k] == reordered[i];
        assert(family[k] matches CardContent::Cloze { text, .. } && text@ == t);
    }
    lemma_map_multiset(
        family,
        reordered,
        |c: CardContent|
            match c {
                CardContent::Cloze { start, end, .. } => (start, end),
                CardContent::Basic { .. } => (0usize, 0usize),
            },
    );
    assert(cloze_spans(family).to_multiset() == cloze_spans(reordered).to_multiset());
    lemma_family_back_order_free(config, family, reordered, t);
}

/// `CLOZE_DELETION{i}Z`: the marker of the i-th deletion of a family.
pub open spec fn family_marker(i: nat) -> Seq<char> {
    cloze_marker() + crate::markdown::decimal(i) + seq!['Z']
}

/// The marker of one deletion is never a prefix of the marker of another:
/// replacing the markers one by one cannot touch another deletion's.
pub proof fn lemma_family_markers_distinct(i: nat, j: nat)
    requires
        i != j,
    ensures
        !(family_marker(i).len() <= family_marker(j).len() && family_marker(j).take(
            family_marker(i).len() as int,
        ) == family_marker(i)),
{
    let di = crate::markdown::decimal(i);
    let dj = crate::markdown::decimal(j);
    let m = cloze_marker();
    let a = family_marker(i);
    let b = family_marker(j);
    crate::markdown::lemma_decimal_digits(i);
    crate::markdown::lemma_decimal_digits(j);
    if a.len() <= b.len() && b.take(a.len() as int) == a {
        let k: int = m.len() as int + di.len() as int;
        assert(a[k] == 'Z');
        if di.len() < dj.len() {
            assert(b[k] == dj[di.len() as int]);
            assert(b.take(a.len() as int)[k] == b[k]);
        } else {
            assert(di.len() == dj.len());
            assert forall|x: int| 0 <= x < di.len() implies di[x] == dj[x] by {
                assert(a[m.len() + x] == di[x]);
                assert(b[m.len() + x] == dj[x]);
                assert(b.take(a.len() as int)[m.len() + x] == b[m.len() + x]);
            }
            assert(di =~= dj);
            crate::markdown::lemma_decimal_injective(i, j);
        }
    }
}

/// The family text with the deletions, numbered from `i`, replaced by their
/// markers, from byte `cursor` on.
pub open spec fn family_marked(b: Seq<u8>, spans: Seq<(usize, usize)>, i: nat, cursor: int) -> Seq<u8>
    decreases spans.len(),
{
    if spans.len() == 0 {
        b.subrange(cursor, b.len() as int)
    } else {
        b.subrange(cursor, spans[0].0 as int) + encode_utf8(family_marker(i)) + family_marked(
            b,
            spans.drop_first(),
            i + 1,
            spans[0].1 + 1,
        )
    }
}

/// The bytes under each deletion.
pub open spec fn deleted_parts(b: Seq<u8>, spans: Seq<(usize, usize)>) -> Seq<Seq<u8>> {
    spans.map_values(|s: (usize, usize)| b.subrange(s.0 as int, s.1 + 1))
}

/// The first part that is not valid UTF-8.
pub open spec fn first_invalid(parts: Seq<Seq<u8>>) -> Option<Seq<u8>>
    decreases parts.len(),
{
    if parts.len() == 0 {
        None
    } else if !valid_utf8(parts[0]) {
        Some(parts[0])
    } else {
        first_invalid(parts.drop_first())
    }
}

/// Replaces the markers from the i-th on by the revealed deletions
/// (rendered inline), or gives the first rendering error.
pub open spec fn reveal_all(config: MarkdownRenderConfig, html: Seq<char>, deleted: Seq<Seq<char>>, i: nat) -> Result<Seq<char>, Seq<char>>
    decreases deleted.len() - i,
{
    if i >= deleted.len() {
        Ok(html)
    } else {
        match markdown_html(config, deleted[i as int]) {
            Err(m) => Err(m),
            Ok(full) => reveal_all(
                config,
                replaced(html, family_marker(i), reveal_span(without_paragraph(full))),
                deleted,
                i + 1,
            ),
        }
    }
}

/// May the family be rendered without going out of its text?
pub open spec fn family_renderable(family: Seq<CardContent>) -> bool {
    family_check(family, None, seq![]) matches Ok((text, spans)) ==> spans_fit(
        sort_by_start(spans),
        encode_utf8(text).len() as int,
        0,
    )
}

/// A cloze's two faces render the same marked text: the front hides the
/// deletion, and the back reveals it rendered as inline Markdown (its
/// HTML without the paragraph around it), not as its source.
pub proof fn lemma_cloze_faces(config: MarkdownRenderConfig, c: CardContent, h: Seq<char>, full: Seq<char>)
    requires
        c is Cloze,
        valid_utf8(c.marked_bytes()),
        valid_utf8(c.deleted_bytes()),
        markdown_html(config, decode_utf8(c.marked_bytes())) == Ok::<Seq<char>, Seq<char>>(h),
        markdown_html(config, decode_utf8(c.deleted_bytes())) == Ok::<Seq<char>, Seq<char>>(full),
    ensures
        c.front_html(config) == Ok::<Seq<char>, Seq<char>>(replaced(h, cloze_marker(), hidden_span())),
        c.back_html(config) == Ok::<Seq<char>, Seq<char>>(
            replaced(h, cloze_marker(), reveal_span(without_paragraph(full))),
        ),
{
}

/// Where the deletion of a cloze does not render, its back fails with that
/// error.
pub proof fn lemma_cloze_back_error(config: MarkdownRenderConfig, c: CardContent, m: Seq<char>)
    requires
        c is Cloze,
        valid_utf8(c.deleted_bytes()),
        markdown_html(config, decode_utf8(c.deleted_bytes())) == Err::<Seq<char>, Seq<char>>(m),
    ensures
        c.back_html(config) == Err::<Seq<char>, Seq<char>>(m),
{
}

/// `html` with the marker of each deletion, from the i-th on, replaced by
/// the given inline HTML.
pub open spec fn revealed(html: Seq<char>, inlines: Seq<Seq<char>>, i: nat) -> Seq<char>
    decreases inlines.len() - i,
{
    if i >= inlines.len() {
        html
    } else {
        revealed(replaced(html, family_marker(i), reveal_span(inlines[i as int])), inlines, i + 1)
    }
}

/// Where every deletion renders, revealing them one by one reveals each as
/// its inline rendering.
proof fn lemma_reveal_all_rendered(
    config: MarkdownRenderConfig,
    html: Seq<char>,
    deleted: Seq<Seq<char>>,
    fulls: Seq<Seq<char>>,
    i: nat,
)
    requires
        fulls.len() == deleted.len(),
        forall|k: int| 0 <= k < deleted.len() ==> markdown_html(config, #[trigger] deleted[k]) == Ok::<Seq<char>, Seq<char>>(fulls[k]),
    ensures
        reveal_all(config, html, deleted, i) == Ok::<Seq<char>, Seq<char>>(
            revealed(html, fulls.map_values(|f: Seq<char>| without_paragraph(f)), i),
        ),
    decreases deleted.len() - i,
{
    if i < deleted.len() {
        let inl = fulls.map_values(|f: Seq<char>| without_paragraph(f));
        assert(markdown_html(config, deleted[i as int]) == Ok::<Seq<char>, Seq<char>>(fulls[i as int]));
        lemma_reveal_all_rendered(
            config,
            replaced(html, family_marker(i), reveal_span(without_paragraph(fulls[i as int]))),
            deleted,
            fulls,
            i + 1,
        );
        assert(inl[i as int] == without_paragraph(fulls[i as int]));
    }
}

/// The back of a cloze family reveals every deletion rendered as inline
/// Markdown: where the family's text is `t`, its spans sorted by start are
/// `sorted`, the marked text renders to `h` and the k-th deletion renders
/// to `fulls[k]`, the back is `h` with the k-th marker replaced by the
/// revealed inline HTML of `fulls[k]`.
pub proof fn lemma_family_back_reveals_rendered(
    config: MarkdownRenderConfig,
    family: Seq<CardContent>,
    t: Seq<char>,
    spans: Seq<(usize, usize)>,
    h: Seq<char>,
    fulls: Seq<Seq<char>>,
)
    requires
        family_check(family, None, seq![]) == Ok::<(Seq<char>, Seq<(usize, usize)>), Seq<char>>((t, spans)),
        first_invalid(deleted_parts(encode_utf8(t), sort_by_start(spans))) is None,
        valid_utf8(family_marked(encode_utf8(t), sort_by_start(spans), 0, 0)),
        markdown_html(config, decode_utf8(family_marked(encode_utf8(t), sort_by_start(spans), 0, 0)))
            == Ok::<Seq<char>, Seq<char>>(h),
        fulls.len() == spans.len(),
        forall|k: int|
            0 <= k < fulls.len() ==> markdown_html(
                config,
                decode_utf8(#[trigger] deleted_parts(encode_utf8(t), sort_by_start(spans))[k]),
            ) == Ok::<Seq<char>, Seq<char>>(fulls[k]),
    ensures
        family_back_html(config, family) == Ok::<Seq<char>, Seq<char>>(
            revealed(h, fulls.map_values(|f: Seq<char>| without_paragraph(f)), 0),
        ),
{
    let parts = deleted_parts(encode_utf8(t), sort_by_start(spans));
    let decoded = parts.map_values(|p: Seq<u8>| decode_utf8(p));
    lemma_sort_by_start_props(spans);
    assert(sort_by_start(spans).to_multiset().len() == sort_by_start(spans).len()) by {
        broadcast use vstd::seq_lib::group_to_multiset_ensures;
    }
    assert(spans.to_multiset().len() == spans.len()) by {
        broadcast use vstd::seq_lib::group_to_multiset_ensures;
    }
    assert(decoded.len() == fulls.len());
    assert forall|k: int| 0 <= k < decoded.len() implies markdown_html(config, #[trigger] decoded[k]) == Ok::<Seq<char>, Seq<char>>(fulls[k]) by {
        assert(decoded[k] == decode_utf8(parts[k]));
    }
    lemma_reveal_all_rendered(config, h, decoded, fulls, 0);
}

/// The back of a cloze family with every deletion revealed, or the error.
pub open spec fn family_back_html(config: MarkdownRenderConfig, family: Seq<CardContent>) -> Result<Seq<char>, Seq<char>> {
    match family_check(family, None, seq![]) {
        Err(m) => Err(m),
        Ok((text, spans)) => {
            let b = encode_utf8(text);
            let sorted = sort_by_start(spans);
            let parts = deleted_parts(b, sorted);
            match first_invalid(parts) {
                Some(p) => Err(utf8_error_text(p)),
                None => {
                    let marked = family_marked(b, sorted, 0, 0);
                    if !valid_utf8(marked) {
                        Err(utf8_error_text(marked))
                    } else {
                        match markdown_html(config, decode_utf8(marked)) {
                            Err(m) => Err(m),
                            Ok(h) => reveal_all(
                                config,
                                h,
                                parts.map_values(|p: Seq<u8>| decode_utf8(p)),
                                0,
                            ),
                        }
                    }
                },
            }
        },
    }
}

/// Inserting into a sequence at the position found from the back.
proof fn lemma_insert_by_start(sorted: Seq<(usize, usize)>, x: (usize, usize), p: int)
    requires
        0 <= p <= sorted.len(),
        forall|j: int| p <= j < sorted.len() ==> x.0 < #[trigger] sorted[j].0,
        p == 0 || !(x.0 < sorted[p - 1].0),
    ensures
        insert_by_start(sorted, x) == sorted.take(p).push(x) + sorted.skip(p),
    decreases sorted.len(),
{
    if sorted.len() == 0 {
        assert(sorted.take(p).push(x) + sorted.skip(p) =~= seq![x]);
    } else if p == sorted.len() {
        assert(sorted.take(p).push(x) + sorted.skip(p) =~= sorted.push(x));
    } else {
        lemma_insert_by_start(sorted.drop_last(), x, p);
        assert(sorted.drop_last().take(p) =~= sorted.take(p));
        assert(sorted.take(p).push(x) + sorted.skip(p) =~= (sorted.take(p).push(x)
            + sorted.drop_last().skip(p)).push(sorted.last()));
    }
}

/// Sorts spans stably by their start (insertion sort).
fn sort_spans(spans: &Vec<(usize, usize)>) -> (sorted: Vec<(usize, usize)>)
    ensures
        sorted@ == sort_by_start(spans@),
{
    let mut sorted: Vec<(usize, usize)> = Vec::new();
    let mut k: usize = 0;
    while k < spans.len()
        invariant
            k <= spans@.len(),
            sorted@ == sort_by_start(spans@.take(k as int)),
        decreases spans.len() - k,
    {
        let x = spans[k];
        let mut p: usize = sorted.len();
        while p > 0 && x.0 < sorted[p - 1].0
            invariant
                p <= sorted@.len(),
                forall|j: int| p <= j < sorted@.len() ==> x.0 < #[trigger] sorted@[j].0,
            decreases p,
        {
            p = p - 1;
        }
        proof {
            lemma_insert_by_start(sorted@, x, p as int);
            assert(spans@.take(k + 1).drop_last() =~= spans@.take(k as int));
            assert(spans@.take(k + 1).last() == x);
        }
        sorted.insert(p, x);
        k = k + 1;
    }
    proof {
        assert(spans@.take(spans.len() as int) =~= spans@);
    }
    sorted
}

/// The characters of the marker of the i-th deletion of a family.
fn family_marker_chars(i: usize) -> (v: Vec<char>)
    ensures
        v@ == family_marker(i as nat),
{
    let mut v = marker_chars();
    crate::markdown::push_decimal(&mut v, i as u64);
    v.push('Z');
    v
}

impl CardContent {
    /// Renders the back of a cloze family, revealing every cloze deletion
    /// at once, rather than just the one deletion belonging to a single
    /// card. The family must be non-empty, all cloze, and of one text.
    pub fn html_back_family(family: &[&CardContent], config: &MarkdownRenderConfig) -> (r: Result<String, ErrorReport>)
        requires
            family_renderable(family@.map_values(|c: &CardContent| *c)),
        ensures
            outcome(r) == family_back_html(*config, family@.map_values(|c: &CardContent| *c)),
    {
        let ghost fam = family@.map_values(|c: &CardContent| *c);
        let mut text: Option<&String> = None;
        let mut spans: Vec<(usize, usize)> = Vec::new();
        let mut k: usize = 0;
        proof {
            assert(fam.skip(0) =~= fam);
        }
        while k < family.len()
            invariant
                k <= family@.len(),
                fam == family@.map_values(|c: &CardContent| *c),
                family_check(fam, None, seq![]) == family_check(
                    fam.skip(k as int),
                    match text {
                        Some(t) => Some(t@),
                        None => None,
                    },
                    spans@,
                ),
            decreases family.len() - k,
        {
            proof {
                assert(fam.skip(k as int).drop_first() =~= fam.skip(k + 1));
                assert(fam.skip(k as int)[0] == *family@[k as int]);
            }
            match family[k] {
                CardContent::Cloze { text: t, start, end } => {
                    match text {
                        None => {
                            text = Some(t);
                        },
                        Some(existing) => {
                            if *existing != *t {
                                return Err(ErrorReport::from_str(
                                    "html_back_family called with cards from different cloze families",
                                ));
                            }
                        },
                    }
                    spans.push((*start, *end));
                },
                CardContent::Basic { .. } => {
                    return Err(ErrorReport::from_str("html_back_family called with a basic card"));
                },
            }
            k = k + 1;
        }
        proof {
            assert(fam.skip(k as int) =~= Seq::<CardContent>::empty());
        }
        let text = match text {
            Some(t) => t,
            None => {
                return Err(ErrorReport::from_str("html_back_family called with an empty family"));
            },
        };
        let sorted = sort_spans(&spans);
        let bytes = bytes_of(text.as_str());
        let n = bytes.len();
        let ghost parts = deleted_parts(bytes@, sorted@);
        let mut marked: Vec<u8> = Vec::new();
        let mut deleted_texts: Vec<String> = Vec::new();
        let mut cursor: usize = 0;
        let mut i: usize = 0;
        proof {
            assert(sorted@.skip(0) =~= sorted@);
            assert(parts.skip(0) =~= parts);
        }
        proof {
            assert(family_check(fam, None, seq![]) == Ok::<(Seq<char>, Seq<(usize, usize)>), Seq<char>>((text@, spans@)));
        }
        while i < sorted.len()
            invariant
                i <= sorted@.len(),
                fam == family@.map_values(|c: &CardContent| *c),
                family_check(fam, None, seq![]) == Ok::<(Seq<char>, Seq<(usize, usize)>), Seq<char>>((text@, spans@)),
                sorted@ == sort_by_start(spans@),
                bytes@ == encode_utf8(text@),
                n == bytes@.len(),
                parts == deleted_parts(bytes@, sorted@),
                spans_fit(sorted@.skip(i as int), n as int, cursor as int),
                family_marked(bytes@, sorted@, 0, 0) == marked@ + family_marked(
                    bytes@,
                    sorted@.skip(i as int),
                    i as nat,
                    cursor as int,
                ),
                first_invalid(parts) == first_invalid(parts.skip(i as int)),
                deleted_texts@.len() == i,
                forall|j: int| 0 <= j < i ==> valid_utf8(#[trigger] parts[j]),
                deleted_texts@.map_values(|t: String| t@) == parts.take(i as int).map_values(
                    |p: Seq<u8>| decode_utf8(p),
                ),
            decreases sorted.len() - i,
        {
            let (s, e) = sorted[i];
            proof {
                assert(sorted@.skip(i as int)[0] == (s, e));
                assert(sorted@.skip(i as int).drop_first() =~= sorted@.skip(i + 1));
                assert(parts.skip(i as int).drop_first() =~= parts.skip(i + 1));
                assert(parts.skip(i as int)[0] == bytes@.subrange(s as int, e + 1));
            }
            let ghost before = marked@;
            push_byte_range(&mut marked, &bytes, cursor, s);
            let d = copy_bytes(&bytes, s, e + 1);
            proof {
                assert(parts[i as int] == d@);
            }
            let x = match string_from_utf8(d) {
                Ok(x) => x,
                Err(m) => {
                    proof {
                        assert(first_invalid(parts.skip(i as int)) == Some(parts[i as int]));
                    }
                    return Err(ErrorReport::new(m));
                },
            };
            let ghost old_texts = deleted_texts@;
            proof {
                assert(valid_utf8(parts[i as int]));
                assert(x@ == decode_utf8(parts[i as int]));
            }
            deleted_texts.push(x);
            proof {
                assert(deleted_texts@[i as int]@ == decode_utf8(parts[i as int]));
                assert(deleted_texts@.map_values(|t: String| t@) =~= old_texts.map_values(|t: String| t@).push(decode_utf8(parts[i as int])));
                assert(parts.take(i + 1).map_values(|p: Seq<u8>| decode_utf8(p)) =~= parts.take(i as int).map_values(|p: Seq<u8>| decode_utf8(p)).push(decode_utf8(parts[i as int])));
            }
            proof {
                assert(first_invalid(parts.skip(i as int)) == first_invalid(parts.skip(i + 1)));
                assert(deleted_texts@.map_values(|t: String| t@) =~= parts.take(i + 1).map_values(
                    |p: Seq<u8>| decode_utf8(p),
                ));
            }
            let tag = string_from_chars(&family_marker_chars(i));
            push_str_bytes(&mut marked, tag.as_str());
            proof {
                assert(before + family_marked(bytes@, sorted@.skip(i as int), i as nat, cursor as int)
                    =~= marked@ + family_marked(bytes@, sorted@.skip(i + 1), (i + 1) as nat, e + 1));
            }
            cursor = e + 1;
            i = i + 1;
        }
        proof {
            assert(sorted@.skip(i as int) =~= Seq::<(usize, usize)>::empty());
            assert(parts.skip(i as int) =~= Seq::<Seq<u8>>::empty());
        }
        push_byte_range(&mut marked, &bytes, cursor, n);
        let ghost marked_all = marked@;
        proof {
            assert(marked_all == family_marked(bytes@, sorted@, 0, 0));
            assert(first_invalid(parts) is None);
        }
        let marked_text = match string_from_utf8(marked) {
            Ok(x) => x,
            Err(m) => {
                return Err(ErrorReport::new(m));
            },
        };
        let mut html = match markdown_to_html(config, marked_text.as_str()) {
            Ok(h) => h,
            Err(e) => {
                return Err(e);
            },
        };
        let ghost decoded = parts.map_values(|p: Seq<u8>| decode_utf8(p));
        proof {
            assert(parts.take(parts.len() as int) =~= parts);
        }
        let ghost h0 = html@;
        let mut j: usize = 0;
        proof {
            assert(family_back_html(*config, fam) == reveal_all(*config, h0, decoded, 0));
        }
        while j < deleted_texts.len()
            invariant
                fam == family@.map_values(|c: &CardContent| *c),
                family_back_html(*config, fam) == reveal_all(*config, h0, decoded, 0),
                j <= deleted_texts@.len(),
                decoded.len() == deleted_texts@.len(),
                forall|m: int| 0 <= m < decoded.len() ==> (#[trigger] deleted_texts@[m])@ == decoded[m],
                reveal_all(*config, h0, decoded, 0) == reveal_all(*config, html@, decoded, j as nat),
            decreases deleted_texts.len() - j,
        {
            let dh = match markdown_to_html_inline(config, deleted_texts[j].as_str()) {
                Ok(h) => h,
                Err(e) => {
                    return Err(e);
                },
            };
            let replaced_html = replace_chars(
                &chars_of(html.as_str()),
                &family_marker_chars(j),
                &reveal_span_text(dh.as_str()),
            );
            html = string_from_chars(&replaced_html);
            j = j + 1;
        }
        Ok(html)
    }
}

impl CardContent {
    /// Can the card's faces be rendered: a basic card, or a cloze whose
    /// deletion lies within its text?
    pub fn renderable(&self) -> (r: bool)
        ensures
            r == (self is Basic || self.cloze_span_ok()),
    {
        match self {
            CardContent::Basic { .. } => true,
            CardContent::Cloze { text, start, end } => {
                let n = bytes_of(text.as_str()).len();
                *end < usize::MAX && *start <= *end + 1 && *end + 1 <= n
            },
        }
    }

    /// May the family be rendered without going out of its text (see
    /// `family_renderable`)?
    pub fn family_fits(family: &[&CardContent]) -> (r: bool)
        ensures
            r == family_renderable(family@.map_values(|c: &CardContent| *c)),
    {
        let ghost fam = family@.map_values(|c: &CardContent| *c);
        let mut text: Option<&String> = None;
        let mut spans: Vec<(usize, usize)> = Vec::new();
        let mut k: usize = 0;
        proof {
            assert(fam.skip(0) =~= fam);
        }
        while k < family.len()
            invariant
                k <= family@.len(),
                fam == family@.map_values(|c: &CardContent| *c),
                family_check(fam, None, seq![]) == family_check(
                    fam.skip(k as int),
                    match text {
                        Some(t) => Some(t@),
                        None => None,
                    },
                    spans@,
                ),
            decreases family.len() - k,
        {
            proof {
                assert(fam.skip(k as int).drop_first() =~= fam.skip(k + 1));
                assert(fam.skip(k as int)[0] == *family@[k as int]);
            }
            match family[k] {
                CardContent::Cloze { text: t, start, end } => {
                    match text {
                        None => {
                            text = Some(t);
                        },
                        Some(existing) => {
                            if *existing != *t {
                                return true;
                            }
                        },
                    }
                    spans.push((*start, *end));
                },
                CardContent::Basic { .. } => {
                    return true;
                },
            }
            k = k + 1;
        }
        proof {
            assert(fam.skip(k as int) =~= Seq::<CardContent>::empty());
        }
        let text = match text {
            Some(t) => t,
            None => {
                return true;
            },
        };
        let sorted = sort_spans(&spans);
        let n = bytes_of(text.as_str()).len();
        let mut cursor: usize = 0;
        let mut i: usize = 0;
        proof {
            assert(sorted@.skip(0) =~= sorted@);
        }
        while i < sorted.len()
            invariant
                i <= sorted@.len(),
                fam == family@.map_values(|c: &CardContent| *c),
                n == encode_utf8(text@).len(),
                family_renderable(fam) == spans_fit(sorted@.skip(i as int), n as int, cursor as int),
            decreases sorted.len() - i,
        {
            let (s, e) = sorted[i];
            proof {
                assert(sorted@.skip(i as int)[0] == (s, e));
                assert(sorted@.skip(i as int).drop_first() =~= sorted@.skip(i + 1));
            }
            if !(cursor <= s && e < usize::MAX && s <= e + 1 && e + 1 <= n) {
                return false;
            }
            cursor = e + 1;
            i = i + 1;
        }
        proof {
            assert(sorted@.skip(i as int) =~= Seq::<(usize, usize)>::empty());
        }
        cursor <= n
    }
}

impl Card {
    /// Render the back of a cloze family, revealing every cloze deletion in
    /// the family at once, rather than just the one deletion belonging to a
    /// single card.
    ///
    /// `family` must be a non-empty slice of cloze cards that all share the
    /// same family hash.
    pub fn html_back_family(family: &[&Card], config: &MarkdownRenderConfig) -> (r: Result<String, ErrorReport>)
        requires
            family_renderable(family@.map_values(|c: &Card| c.body())),
        ensures
            outcome(r) == family_back_html(*config, family@.map_values(|c: &Card| c.body())),
    {
        let mut contents: Vec<&CardContent> = Vec::new();
        let mut k: usize = 0;
        while k < family.len()
            invariant
                k <= family@.len(),
                contents@.map_values(|c: &CardContent| *c) == family@.take(k as int).map_values(
                    |c: &Card| c.body(),
                ),
            decreases family.len() - k,
        {
            contents.push(family[k].content());
            proof {
                assert(family@.take(k + 1).map_values(|c: &Card| c.body()) =~= family@.take(
                    k as int,
                ).map_values(|c: &Card| c.body()).push(family@[k as int].body()));
                assert(contents@.map_values(|c: &CardContent| *c) =~= family@.take(k + 1).map_values(
                    |c: &Card| c.body(),
                ));
            }
            k = k + 1;
        }
        proof {
            assert(family@.take(family.len() as int) =~= family@);
        }
        CardContent::html_back_family(contents.as_slice(), config)
    }

    /// Can the card's faces be rendered (see `CardContent::renderable`)?
    pub fn renderable(&self) -> (r: bool)
        ensures
            r == (self.body() is Basic || self.body().cloze_span_ok()),
    {
        self.content().renderable()
    }

    /// May the family be rendered without going out of its text?
    pub fn family_fits(family: &[&Card]) -> (r: bool)
        ensures
            r == family_renderable(family@.map_values(|c: &Card| c.body())),
    {
        let mut contents: Vec<&CardContent> = Vec::new();
        let mut k: usize = 0;
        while k < family.len()
            invariant
                k <= family@.len(),
                contents@.map_values(|c: &CardContent| *c) == family@.take(k as int).map_values(
                    |c: &Card| c.body(),
                ),
            decreases family.len() - k,
        {
            contents.push(family[k].content());
            proof {
                assert(family@.take(k + 1).map_values(|c: &Card| c.body()) =~= family@.take(
                    k as int,
                ).map_values(|c: &Card| c.body()).push(family@[k as int].body()));
                assert(contents@.map_values(|c: &CardContent| *c) =~= family@.take(k + 1).map_values(
                    |c: &Card| c.body(),
                ));
            }
            k = k + 1;
        }
        proof {
            assert(family@.take(family.len() as int) =~= family@);
        }
        CardContent::family_fits(contents.as_slice())
    }

    /// The HTML of the front of the card.
    pub fn html_front(&self, config: &MarkdownRenderConfig) -> (r: Result<String, ErrorReport>)
        requires
            self.body() is Basic || self.body().cloze_span_ok(),
        ensures
            outcome(r) == self.body().front_html(*config),
    {
        self.content().html_front(config)
    }

    /// The HTML of the back of the card.
    pub fn html_back(&self, config: &MarkdownRenderConfig) -> (r: Result<String, ErrorReport>)
        requires
            self.body() is Basic || self.body().cloze_span_ok(),
        ensures
            outcome(r) == self.body().back_html(*config),
    {
        self.content().html_back(config)
    }
}

} // verus!
