//! Markdown rendering of card faces: LaTeX delimiter rewriting, media links
//! pointed at the local file server, audio links shown as players, and the
//! HTML produced by pulldown-cmark.

use vstd::prelude::*;
use vstd::utf8::*;

use pulldown_cmark::html::push_html;
use pulldown_cmark::CowStr;
use pulldown_cmark::Event;
use pulldown_cmark::Options;
use pulldown_cmark::Parser;
use pulldown_cmark::Tag;
use pulldown_cmark::TagEnd;

use crate::text::bytes_of;
use crate::text::string_from_utf8;

verus! {

/// What kind of pulldown-cmark event a code event is.
#[derive(Debug, PartialEq, Eq, Structural, Clone, Copy)]
pub enum CodeEventKind {
    /// The start of a fenced or indented code block.
    BlockStart,
    /// The end of a code block.
    BlockEnd,
    /// An inline code span.
    Inline,
    /// Any other event.
    Other,
}

/// A pulldown-cmark event with the byte range of source it maps to.
#[derive(Debug, PartialEq, Eq, Structural, Clone, Copy)]
pub struct CodeEvent {
    pub kind: CodeEventKind,
    pub start: usize,
    pub end: usize,
}

/// The events pulldown-cmark (no extensions) reads from a Markdown text,
/// with their source ranges.
pub uninterp spec fn cmark_code_events(markdown: Seq<char>) -> Seq<CodeEvent>;

/// Calls `pulldown_cmark::Parser::new_ext` with no extensions and
/// `into_offset_iter`, keeping of each event whether it starts or ends a
/// code block or is an inline code span, and its source byte range; the
/// events depend on the text alone.
#[verifier::external_body]
fn parse_code_events(markdown: &str) -> (events: Vec<CodeEvent>)
    ensures
        events@ == cmark_code_events(markdown@),
{
    let mut events = Vec::new();
    for (event, range) in Parser::new_ext(markdown, Options::empty()).into_offset_iter() {
        let kind = match event {
            Event::Start(Tag::CodeBlock(_)) => CodeEventKind::BlockStart,
            Event::End(TagEnd::CodeBlock) => CodeEventKind::BlockEnd,
            Event::Code(_) => CodeEventKind::Inline,
            _ => CodeEventKind::Other,
        };
        events.push(CodeEvent { kind, start: range.start, end: range.end });
    }
    events
}

/// The byte ranges of code (blocks and inline spans) among `events`, given
/// the start of a code block still open (if any).
pub open spec fn code_ranges_from(events: Seq<CodeEvent>, open: Option<usize>) -> Seq<(usize, usize)>
    decreases events.len(),
{
    if events.len() == 0 {
        seq![]
    } else {
        let e = events[0];
        let rest = events.drop_first();
        match e.kind {
            CodeEventKind::BlockStart => code_ranges_from(rest, Some(e.start)),
            CodeEventKind::BlockEnd => match open {
                Some(s) => seq![(s, e.end)] + code_ranges_from(rest, None),
                None => code_ranges_from(rest, None),
            },
            CodeEventKind::Inline => seq![(e.start, e.end)] + code_ranges_from(rest, open),
            CodeEventKind::Other => code_ranges_from(rest, open),
        }
    }
}

/// The byte ranges of code among `events`.
pub open spec fn code_ranges(events: Seq<CodeEvent>) -> Seq<(usize, usize)> {
    code_ranges_from(events, None)
}

/// The byte ranges of code blocks and inline code spans among `events`: a
/// code block spans from its start event to its end event.
pub fn protected_code_ranges(events: &Vec<CodeEvent>) -> (ranges: Vec<(usize, usize)>)
    ensures
        ranges@ == code_ranges(events@),
{
    let mut ranges: Vec<(usize, usize)> = Vec::new();
    let mut open: Option<usize> = None;
    let mut k: usize = 0;
    proof {
        assert(events@.skip(0) =~= events@);
    }
    while k < events.len()
        invariant
            k <= events@.len(),
            code_ranges(events@) == ranges@ + code_ranges_from(events@.skip(k as int), open),
        decreases events.len() - k,
    {
        let e = events[k];
        let ghost before = ranges@;
        proof {
            assert(events@.skip(k as int).drop_first() =~= events@.skip(k + 1));
            assert(events@.skip(k as int)[0] == e);
        }
        match e.kind {
            CodeEventKind::BlockStart => {
                open = Some(e.start);
            },
            CodeEventKind::BlockEnd => {
                match open {
                    Some(s) => {
                        ranges.push((s, e.end));
                        proof {
                            assert(before + (seq![(s, e.end)] + code_ranges_from(events@.skip(k + 1), None))
                                =~= ranges@ + code_ranges_from(events@.skip(k + 1), None));
                        }
                    },
                    None => {},
                }
                open = None;
            },
            CodeEventKind::Inline => {
                ranges.push((e.start, e.end));
                proof {
                    assert(before + (seq![(e.start, e.end)] + code_ranges_from(events@.skip(k + 1), open))
                        =~= ranges@ + code_ranges_from(events@.skip(k + 1), open));
                }
            },
            CodeEventKind::Other => {},
        }
        k = k + 1;
    }
    proof {
        assert(events@.skip(k as int) =~= Seq::<CodeEvent>::empty());
        assert(ranges@ + Seq::<(usize, usize)>::empty() =~= ranges@);
    }
    ranges
}

/// Does some range hold `pos`?
pub open spec fn in_ranges(pos: int, ranges: Seq<(usize, usize)>) -> bool {
    exists|k: int| 0 <= k < ranges.len() && (#[trigger] ranges[k]).0 <= pos < ranges[k].1
}

/// Does some range hold `pos`?
pub fn is_in_ranges(pos: usize, ranges: &Vec<(usize, usize)>) -> (r: bool)
    ensures
        r == in_ranges(pos as int, ranges@),
{
    let mut k: usize = 0;
    while k < ranges.len()
        invariant
            k <= ranges@.len(),
            forall|j: int| 0 <= j < k ==> !((#[trigger] ranges@[j]).0 <= pos < ranges@[j].1),
        decreases ranges.len() - k,
    {
        let (s, e) = ranges[k];
        if pos >= s && pos < e {
            return true;
        }
        k = k + 1;
    }
    false
}

/// The backslash byte.
pub open spec fn backslash() -> u8 {
    92
}

/// The position of the first unprotected, unescaped `\` followed by `close`
/// at or after `from`; a `\\` pair is skipped as a whole.
pub open spec fn close_of(bytes: Seq<u8>, from: int, close: u8, ranges: Seq<(usize, usize)>) -> Option<int>
    decreases bytes.len() - from,
{
    if !(from + 1 < bytes.len()) {
        None
    } else if bytes[from] == backslash() && !in_ranges(from, ranges) {
        if bytes[from + 1] == backslash() {
            close_of(bytes, from + 2, close, ranges)
        } else if bytes[from + 1] == close {
            Some(from)
        } else {
            close_of(bytes, from + 1, close, ranges)
        }
    } else {
        close_of(bytes, from + 1, close, ranges)
    }
}

/// A found closing delimiter lies after `from`, is an unprotected `\`, and
/// is followed by `close`.
pub proof fn lemma_close_of(bytes: Seq<u8>, from: int, close: u8, ranges: Seq<(usize, usize)>)
    ensures
        close_of(bytes, from, close, ranges) matches Some(c) ==> from <= c && c + 1 < bytes.len()
            && bytes[c] == backslash() && bytes[c + 1] == close && !in_ranges(c, ranges),
    decreases bytes.len() - from,
{
    if from + 1 < bytes.len() {
        lemma_close_of(bytes, from + 1, close, ranges);
        lemma_close_of(bytes, from + 2, close, ranges);
    }
}

/// Finds the closing delimiter (see `close_of`).
pub fn find_close(bytes: &Vec<u8>, from: usize, close: u8, ranges: &Vec<(usize, usize)>) -> (r: Option<usize>)
    ensures
        r matches Some(c) ==> close_of(bytes@, from as int, close, ranges@) == Some(c as int),
        r is None ==> close_of(bytes@, from as int, close, ranges@) is None,
{
    let mut i = from;
    while i < bytes.len() && i + 1 < bytes.len()
        invariant
            from <= i,
            close_of(bytes@, from as int, close, ranges@) == close_of(bytes@, i as int, close, ranges@),
        decreases bytes.len() - i,
    {
        if bytes[i] == 92 && !is_in_ranges(i, ranges) {
            if bytes[i + 1] == 92 {
                i = i + 2;
                continue;
            }
            if bytes[i + 1] == close {
                return Some(i);
            }
        }
        i = i + 1;
    }
    None
}

/// The Markdown bytes from position `i` on, with `\(..\)` turned into
/// `$..$` and `\[..\]` into `$$..$$` outside code, given that the bytes
/// before `copied` are already written out.
pub open spec fn latex_rewrite_from(bytes: Seq<u8>, ranges: Seq<(usize, usize)>, i: int, copied: int) -> Seq<u8>
    decreases bytes.len() - i,
{
    if !(i + 1 < bytes.len()) {
        bytes.subrange(copied, bytes.len() as int)
    } else if bytes[i] != backslash() || in_ranges(i, ranges) {
        latex_rewrite_from(bytes, ranges, i + 1, copied)
    } else if bytes[i + 1] == backslash() {
        latex_rewrite_from(bytes, ranges, i + 2, copied)
    } else if bytes[i + 1] == 40 || bytes[i + 1] == 91 {
        let close: u8 = if bytes[i + 1] == 40 { 41 } else { 93 };
        let dollars: Seq<u8> = if bytes[i + 1] == 40 { seq![36u8] } else { seq![36u8, 36u8] };
        match close_of(bytes, i + 2, close, ranges) {
            Some(c) => if i < c && c + 1 < bytes.len() {
                bytes.subrange(copied, i) + dollars + bytes.subrange(i + 2, c) + dollars
                    + latex_rewrite_from(bytes, ranges, c + 2, c + 2)
            } else {
                seq![]
            },
            None => latex_rewrite_from(bytes, ranges, i + 1, copied),
        }
    } else {
        latex_rewrite_from(bytes, ranges, i + 1, copied)
    }
}

/// Text whose every backslash lies in a code range is left as it is: in
/// particular code blocks and code spans are never rewritten, and text
/// without backslashes is unchanged.
pub proof fn lemma_latex_untouched(bytes: Seq<u8>, ranges: Seq<(usize, usize)>, i: int, copied: int)
    requires
        0 <= copied <= i <= bytes.len(),
        forall|j: int| i <= j < bytes.len() && #[trigger] bytes[j] == backslash() ==> in_ranges(j, ranges),
    ensures
        latex_rewrite_from(bytes, ranges, i, copied) == bytes.subrange(copied, bytes.len() as int),
    decreases bytes.len() - i,
{
    if i + 1 < bytes.len() {
        lemma_latex_untouched(bytes, ranges, i + 1, copied);
    }
}

/// Looking for a closing delimiter past a prefix without code ranges looks
/// in the rest alone.
proof fn lemma_close_of_shift(p: Seq<u8>, y: Seq<u8>, from: int, close: u8)
    requires
        p.len() <= from,
    ensures
        close_of(p + y, from, close, seq![]) == match close_of(y, from - p.len(), close, seq![]) {
            Some(c) => Some(c + p.len()),
            None => None,
        },
    decreases (p + y).len() - from,
{
    let b = p + y;
    let pl = p.len() as int;
    if from + 1 < b.len() {
        assert(b[from] == y[from - pl]);
        assert(b[from + 1] == y[from + 1 - pl]);
        assert(!in_ranges(from, seq![]));
        assert(!in_ranges(from - pl, seq![]));
        lemma_close_of_shift(p, y, from + 1, close);
        if from + 2 <= b.len() {
            lemma_close_of_shift(p, y, from + 2, close);
        }
    }
}

/// Rewriting past a prefix without code ranges, once the prefix is written
/// out, rewrites the rest alone.
proof fn lemma_latex_rewrite_shift(p: Seq<u8>, y: Seq<u8>, i: int, copied: int)
    requires
        p.len() <= copied <= i <= (p + y).len(),
    ensures
        latex_rewrite_from(p + y, seq![], i, copied) == latex_rewrite_from(y, seq![], i - p.len(), copied - p.len()),
    decreases (p + y).len() - i,
{
    let b = p + y;
    let pl = p.len() as int;
    assert(!in_ranges(i, seq![]));
    assert(!in_ranges(i - pl, seq![]));
    if !(i + 1 < b.len()) {
        assert(b.subrange(copied, b.len() as int) =~= y.subrange(copied - pl, y.len() as int));
    } else {
        assert(b[i] == y[i - pl]);
        assert(b[i + 1] == y[i + 1 - pl]);
        if b[i] != backslash() {
            lemma_latex_rewrite_shift(p, y, i + 1, copied);
        } else if b[i + 1] == backslash() {
            lemma_latex_rewrite_shift(p, y, i + 2, copied);
        } else if b[i + 1] == 40 || b[i + 1] == 91 {
            let close: u8 = if b[i + 1] == 40 { 41 } else { 93 };
            lemma_close_of_shift(p, y, i + 2, close);
            match close_of(y, i + 2 - pl, close, seq![]) {
                Some(c) => {
                    lemma_close_of(y, i + 2 - pl, close, seq![]);
                    if i - pl < c && c + 1 < y.len() {
                        lemma_latex_rewrite_shift(p, y, c + pl + 2, c + pl + 2);
                        assert(b.subrange(copied, i) =~= y.subrange(copied - pl, i - pl));
                        assert(b.subrange(i + 2, c + pl) =~= y.subrange(i + 2 - pl, c));
                    }
                },
                None => {
                    lemma_latex_rewrite_shift(p, y, i + 1, copied);
                },
            }
        } else {
            lemma_latex_rewrite_shift(p, y, i + 1, copied);
        }
    }
}

/// Over text without backslashes before `end`, rewriting moves on to `end`.
proof fn lemma_latex_skip_plain(bytes: Seq<u8>, i: int, end: int)
    requires
        0 <= i <= end,
        end + 1 < bytes.len(),
        forall|k: int| i <= k < end ==> #[trigger] bytes[k] != backslash(),
    ensures
        latex_rewrite_from(bytes, seq![], i, 0) == latex_rewrite_from(bytes, seq![], end, 0),
    decreases end - i,
{
    if i < end {
        lemma_latex_skip_plain(bytes, i + 1, end);
    }
}

/// Over text without backslashes before `at`, the closing delimiter found is
/// the one at `at`.
proof fn lemma_close_of_plain(bytes: Seq<u8>, from: int, at: int, close: u8)
    requires
        0 <= from <= at,
        at + 1 < bytes.len(),
        bytes[at] == backslash(),
        bytes[at + 1] == close,
        close != backslash(),
        forall|k: int| from <= k < at ==> #[trigger] bytes[k] != backslash(),
    ensures
        close_of(bytes, from, close, seq![]) == Some(at),
    decreases at - from,
{
    assert(!in_ranges(from, seq![]));
    if from < at {
        lemma_close_of_plain(bytes, from + 1, at, close);
    }
}

/// Every delimited math span outside code is rewritten, not only the first:
/// text without backslashes, then `\(..\)` (or `\[..\]`) around text without
/// backslashes, then any rest, rewrites to the text, the math between `$`
/// (or `$$`), and the rewrite of the rest.
pub proof fn lemma_latex_rewrites_each_span(x: Seq<u8>, m: Seq<u8>, y: Seq<u8>, display: bool)
    requires
        forall|k: int| 0 <= k < x.len() ==> #[trigger] x[k] != backslash(),
        forall|k: int| 0 <= k < m.len() ==> #[trigger] m[k] != backslash(),
    ensures
        ({
            let open: u8 = if display { 91 } else { 40 };
            let close: u8 = if display { 93 } else { 41 };
            let dollars: Seq<u8> = if display { seq![36u8, 36u8] } else { seq![36u8] };
            latex_rewrite_from(x + seq![92u8, open] + m + seq![92u8, close] + y, seq![], 0, 0)
                == x + dollars + m + dollars + latex_rewrite_from(y, seq![], 0, 0)
        }),
{
    let open: u8 = if display { 91 } else { 40 };
    let close: u8 = if display { 93 } else { 41 };
    let dollars: Seq<u8> = if display { seq![36u8, 36u8] } else { seq![36u8] };
    let p = x + seq![92u8, open] + m + seq![92u8, close];
    let b = p + y;
    let xl = x.len() as int;
    let cpos = xl + 2 + m.len();
    assert(b == x + seq![92u8, open] + m + seq![92u8, close] + y);
    assert forall|k: int| 0 <= k < xl implies #[trigger] b[k] != backslash() by {
        assert(b[k] == x[k]);
    }
    assert(b[xl] == 92u8);
    assert(b[xl + 1] == open);
    assert forall|k: int| xl + 2 <= k < cpos implies #[trigger] b[k] != backslash() by {
        assert(b[k] == m[k - xl - 2]);
    }
    assert(b[cpos] == 92u8);
    assert(b[cpos + 1] == close);
    lemma_latex_skip_plain(b, 0, xl);
    lemma_close_of_plain(b, xl + 2, cpos, close);
    assert(!in_ranges(xl, seq![]));
    lemma_latex_rewrite_shift(p, y, cpos + 2, cpos + 2);
    assert(p.len() == cpos + 2);
    assert(b.subrange(0, xl) =~= x);
    assert(b.subrange(xl + 2, cpos) =~= m);
    assert(latex_rewrite_from(b, seq![], xl, 0) == b.subrange(0, xl) + dollars + b.subrange(xl + 2, cpos)
        + dollars + latex_rewrite_from(b, seq![], cpos + 2, cpos + 2));
}

/// The LaTeX delimiter rewriting of a Markdown text, as bytes.
pub open spec fn latex_rewritten_bytes(markdown: Seq<char>) -> Seq<u8> {
    latex_rewrite_from(encode_utf8(markdown), code_ranges(cmark_code_events(markdown)), 0, 0)
}

/// The LaTeX delimiter rewriting of a Markdown text.
pub open spec fn latex_rewritten(markdown: Seq<char>) -> Seq<char> {
    decode_utf8(latex_rewritten_bytes(markdown))
}

/// Rewrites LaTeX-style math delimiters in Markdown bytes: `\(...\)` to
/// `$...$` and `\[...\]` to `$$...$$`, leaving code ranges untouched.
pub fn rewrite_latex_bytes(bytes: &Vec<u8>, ranges: &Vec<(usize, usize)>) -> (out: Vec<u8>)
    ensures
        out@ == latex_rewrite_from(bytes@, ranges@, 0, 0),
{
    let mut out: Vec<u8> = Vec::new();
    let mut copied: usize = 0;
    let mut i: usize = 0;
    let n = bytes.len();
    while i < n && i + 1 < n
        invariant
            n == bytes@.len(),
            copied <= i <= n,
            latex_rewrite_from(bytes@, ranges@, 0, 0) == out@ + latex_rewrite_from(
                bytes@,
                ranges@,
                i as int,
                copied as int,
            ),
        decreases n - i,
    {
        if bytes[i] != 92 || is_in_ranges(i, ranges) {
            i = i + 1;
            continue;
        }
        let next = bytes[i + 1];
        if next == 92 {
            i = i + 2;
            continue;
        }
        if next != 40 && next != 91 {
            i = i + 1;
            continue;
        }
        let close: u8 = if next == 40 { 41 } else { 93 };
        match find_close(bytes, i + 2, close, ranges) {
            Some(c) => {
                proof {
                    lemma_close_of(bytes@, i + 2, close, ranges@);
                }
                let ghost before = out@;
                let ghost dollars: Seq<u8> = if next == 40 { seq![36u8] } else { seq![36u8, 36u8] };
                push_range(&mut out, bytes, copied, i);
                out.push(36);
                if next == 91 {
                    out.push(36);
                }
                push_range(&mut out, bytes, i + 2, c);
                out.push(36);
                if next == 91 {
                    out.push(36);
                }
                proof {
                    assert(out@ =~= before + bytes@.subrange(copied as int, i as int) + dollars
                        + bytes@.subrange(i + 2, c as int) + dollars);
                }
                i = c + 2;
                copied = i;
            },
            None => {
                i = i + 1;
            },
        }
    }
    push_range(&mut out, bytes, copied, n);
    out
}

/// Appends `bytes[from..to]` to `out`.
fn push_range(out: &mut Vec<u8>, bytes: &Vec<u8>, from: usize, to: usize)
    requires
        from <= to <= bytes@.len(),
    ensures
        final(out)@ == old(out)@ + bytes@.subrange(from as int, to as int),
{
    crate::text::push_byte_range(out, bytes, from, to);
}

/// In valid UTF-8, the position after an ASCII byte that starts a
/// character is again a character boundary.
proof fn lemma_boundary_after_ascii(bytes: Seq<u8>, k: int)
    requires
        valid_utf8(bytes),
        0 <= k < bytes.len(),
        is_char_boundary(bytes, k),
        bytes[k] < 128,
    ensures
        is_char_boundary(bytes, k + 1),
    decreases bytes.len(),
{
    reveal_with_fuel(is_char_boundary, 2);
    let rest = pop_first_scalar(bytes);
    let l = length_of_first_scalar(bytes);
    if k == 0 {
        assert(l == 1);
        assert(is_char_boundary(rest, 0));
    } else {
        assert(l >= 1);
        if k - l < 0 {
            assert(!is_char_boundary(rest, k - l));
        }
        assert(rest[k - l] == bytes[k]);
        lemma_boundary_after_ascii(rest, k - l);
    }
}

/// A byte that is not a UTF-8 continuation byte starts a character.
proof fn lemma_boundary_at_plain_byte(bytes: Seq<u8>, k: int)
    requires
        valid_utf8(bytes),
        0 <= k < bytes.len(),
        bytes[k] < 128,
    ensures
        is_char_boundary(bytes, k),
{
    is_char_boundary_iff_not_is_continuation_byte(bytes, k);
}

/// The bytes between two character boundaries of valid UTF-8 are valid.
proof fn lemma_valid_between(bytes: Seq<u8>, a: int, b: int)
    requires
        valid_utf8(bytes),
        0 <= a <= b <= bytes.len(),
        is_char_boundary(bytes, a),
        is_char_boundary(bytes, b),
    ensures
        valid_utf8(bytes.subrange(a, b)),
{
    valid_utf8_split(bytes, a);
    let tail = bytes.subrange(a, bytes.len() as int);
    if b < bytes.len() {
        is_char_boundary_iff_not_is_continuation_byte(bytes, b);
        is_char_boundary_iff_not_is_continuation_byte(tail, b - a);
        assert(tail[b - a] == bytes[b]);
    } else {
        is_char_boundary_start_end_of_seq(tail);
    }
    valid_utf8_split(tail, b - a);
    assert(tail.subrange(0, b - a) =~= bytes.subrange(a, b));
}

/// ASCII bytes are valid UTF-8.
proof fn lemma_ascii_valid(bytes: Seq<u8>)
    requires
        forall|i: int| 0 <= i < bytes.len() ==> bytes[i] < 128,
    ensures
        valid_utf8(bytes),
    decreases bytes.len(),
{
    reveal_with_fuel(valid_utf8, 2);
    if bytes.len() > 0 {
        lemma_ascii_valid(bytes.drop_first());
        assert(pop_first_scalar(bytes) =~= bytes.drop_first());
    }
}

/// Rewriting LaTeX delimiters keeps UTF-8 valid.
proof fn lemma_latex_rewrite_valid(bytes: Seq<u8>, ranges: Seq<(usize, usize)>, i: int, copied: int)
    requires
        valid_utf8(bytes),
        0 <= copied <= i <= bytes.len(),
        is_char_boundary(bytes, copied),
    ensures
        valid_utf8(latex_rewrite_from(bytes, ranges, i, copied)),
    decreases bytes.len() - i,
{
    is_char_boundary_start_end_of_seq(bytes);
    if !(i + 1 < bytes.len()) {
        lemma_valid_between(bytes, copied, bytes.len() as int);
    } else if bytes[i] != backslash() || in_ranges(i, ranges) {
        lemma_latex_rewrite_valid(bytes, ranges, i + 1, copied);
    } else if bytes[i + 1] == backslash() {
        lemma_latex_rewrite_valid(bytes, ranges, i + 2, copied);
    } else if bytes[i + 1] == 40 || bytes[i + 1] == 91 {
        let close: u8 = if bytes[i + 1] == 40 { 41 } else { 93 };
        let dollars: Seq<u8> = if bytes[i + 1] == 40 { seq![36u8] } else { seq![36u8, 36u8] };
        lemma_close_of(bytes, i + 2, close, ranges);
        match close_of(bytes, i + 2, close, ranges) {
            Some(c) => {
                lemma_boundary_at_plain_byte(bytes, i);
                lemma_boundary_at_plain_byte(bytes, i + 1);
                lemma_boundary_after_ascii(bytes, i + 1);
                lemma_boundary_at_plain_byte(bytes, c);
                lemma_boundary_at_plain_byte(bytes, c + 1);
                lemma_boundary_after_ascii(bytes, c + 1);
                lemma_valid_between(bytes, copied, i);
                lemma_valid_between(bytes, i + 2, c);
                lemma_ascii_valid(dollars);
                lemma_latex_rewrite_valid(bytes, ranges, c + 2, c + 2);
                let a = bytes.subrange(copied, i);
                let m = bytes.subrange(i + 2, c);
                let r = latex_rewrite_from(bytes, ranges, c + 2, c + 2);
                valid_utf8_concat(a, dollars);
                valid_utf8_concat(a + dollars, m);
                valid_utf8_concat(a + dollars + m, dollars);
                valid_utf8_concat(a + dollars + m + dollars, r);
            },
            None => {
                lemma_latex_rewrite_valid(bytes, ranges, i + 1, copied);
            },
        }
    } else {
        lemma_latex_rewrite_valid(bytes, ranges, i + 1, copied);
    }
}

/// Rewrites LaTeX-style math delimiters into the pulldown-cmark/KaTeX dollar
/// form: `\(...\)` becomes `$...$` and `\[...\]` becomes `$$...$$`.
/// Content inside fenced code blocks and inline code spans is left
/// untouched.
pub fn rewrite_latex_delimiters(markdown: &str) -> (r: String)
    ensures
        r@ == latex_rewritten(markdown@),
        valid_utf8(latex_rewritten_bytes(markdown@)),
{
    let ranges = protected_code_ranges(&parse_code_events(markdown));
    let bytes = bytes_of(markdown);
    let out = rewrite_latex_bytes(&bytes, &ranges);
    proof {
        encode_utf8_valid_utf8(markdown@);
        is_char_boundary_start_end_of_seq(bytes@);
        lemma_latex_rewrite_valid(bytes@, ranges@, 0, 0);
    }
    match string_from_utf8(out) {
        Ok(s) => s,
        Err(_) => {
            proof {
                assert(false);
            }
            String::new()
        },
    }
}

/// The text after the last `.` of `s` (all of `s` when it has no `.`).
pub open spec fn last_dot_segment(s: Seq<char>) -> Seq<char>
    decreases s.len(),
{
    if s.len() == 0 {
        s
    } else if s.last() == '.' {
        seq![]
    } else {
        last_dot_segment(s.drop_last()).push(s.last())
    }
}

/// The extensions of the audio files that are shown as players.
pub open spec fn is_audio_extension(e: Seq<char>) -> bool {
    ||| e == seq!['m', 'p', '3']
    ||| e == seq!['w', 'a', 'v']
    ||| e == seq!['o', 'g', 'g']
    ||| e == seq!['m', '4', 'a']
}

/// Does the URL point to an audio file (`mp3`, `wav`, `ogg` or `m4a`, by
/// the text after its last `.`)?
pub open spec fn is_audio_url(url: Seq<char>) -> bool {
    is_audio_extension(last_dot_segment(url))
}

/// Does the URL point to an audio file?
pub fn is_audio_file(url: &str) -> (r: bool)
    ensures
        r == is_audio_url(url@),
{
    let v = crate::text::chars_of(url);
    let n = v.len();
    let mut start: usize = n;
    proof {
        assert(v@.take(n as int) =~= v@);
        assert(v@.subrange(n as int, n as int) =~= Seq::<char>::empty());
        assert(v@ + Seq::<char>::empty() =~= v@);
    }
    while start > 0 && v[start - 1] != '.'
        invariant
            start <= n == v@.len(),
            last_dot_segment(v@) == last_dot_segment(v@.take(start as int)) + v@.subrange(
                start as int,
                n as int,
            ),
        decreases start,
    {
        proof {
            assert(v@.take(start as int).drop_last() =~= v@.take(start - 1));
            assert(v@.take(start as int).last() == v@[start - 1]);
            assert(v@.subrange(start - 1, n as int) =~= seq![v@[start - 1]] + v@.subrange(
                start as int,
                n as int,
            ));
            assert(last_dot_segment(v@.take(start - 1)).push(v@[start - 1]) + v@.subrange(
                start as int,
                n as int,
            ) =~= last_dot_segment(v@.take(start - 1)) + v@.subrange(start - 1, n as int));
        }
        start = start - 1;
    }
    proof {
        assert(last_dot_segment(v@.take(start as int)) =~= Seq::<char>::empty());
        assert(last_dot_segment(v@) =~= v@.subrange(start as int, n as int));
    }
    let mp3: Vec<char> = vec!['m', 'p', '3'];
    let wav: Vec<char> = vec!['w', 'a', 'v'];
    let ogg: Vec<char> = vec!['o', 'g', 'g'];
    let m4a: Vec<char> = vec!['m', '4', 'a'];
    proof {
        assert(mp3@ =~= seq!['m', 'p', '3']);
        assert(wav@ =~= seq!['w', 'a', 'v']);
        assert(ogg@ =~= seq!['o', 'g', 'g']);
        assert(m4a@ =~= seq!['m', '4', 'a']);
    }
    let is_ext = |e: &Vec<char>| -> (b: bool)
        requires
            e@.len() == 3,
        ensures
            b == (v@.subrange(start as int, n as int) == e@),
        {
            if n - start != 3 {
                proof {
                    assert(v@.subrange(start as int, n as int).len() != e@.len());
                }
                false
            } else {
                let r = crate::text::chars_match_at(&v, start, e);
                proof {
                    if r {
                        assert(v@.subrange(start as int, n as int) =~= v@.subrange(start as int, start + 3));
                    } else {
                        assert(v@.subrange(start as int, n as int) =~= v@.subrange(start as int, start + 3));
                    }
                }
                r
            }
        };
    is_ext(&mp3) || is_ext(&wav) || is_ext(&ogg) || is_ext(&m4a)
}

/// Decimal digits of a number.
pub open spec fn decimal(n: nat) -> Seq<char>
    decreases n,
{
    if n < 10 {
        seq![(48 + n) as char]
    } else {
        decimal(n / 10).push((48 + n % 10) as char)
    }
}

/// Decimal text is made of digits, and has at least two of them from ten
/// on.
pub proof fn lemma_decimal_digits(n: nat)
    ensures
        decimal(n).len() >= 1,
        n >= 10 ==> decimal(n).len() >= 2,
        forall|k: int| 0 <= k < decimal(n).len() ==> 48 <= (#[trigger] decimal(n)[k]) as u32 <= 57,
    decreases n,
{
    if n >= 10 {
        lemma_decimal_digits(n / 10);
        let d = decimal(n / 10);
        assert forall|k: int| 0 <= k < decimal(n).len() implies 48 <= (#[trigger] decimal(n)[k]) as u32 <= 57 by {
            if k < d.len() {
                assert(decimal(n)[k] == d[k]);
            }
        }
    }
}

/// Different numbers have different decimal texts.
pub proof fn lemma_decimal_injective(a: nat, b: nat)
    requires
        decimal(a) == decimal(b),
    ensures
        a == b,
    decreases a,
{
    lemma_decimal_digits(a);
    lemma_decimal_digits(b);
    if a >= 10 && b >= 10 {
        assert(decimal(a) == decimal(a / 10).push((48 + a % 10) as char));
        assert(decimal(b) == decimal(b / 10).push((48 + b % 10) as char));
        assert(decimal(a).last() == (48 + a % 10) as char);
        assert(decimal(b).last() == (48 + b % 10) as char);
        assert(((48 + a % 10) as char) as u32 == 48 + a % 10);
        assert(((48 + b % 10) as char) as u32 == 48 + b % 10);
        assert(decimal(a).drop_last() =~= decimal(a / 10));
        assert(decimal(b).drop_last() =~= decimal(b / 10));
        lemma_decimal_injective(a / 10, b / 10);
        assert(a % 10 == b % 10);
        assert(a == 10 * (a / 10) + a % 10);
        assert(b == 10 * (b / 10) + b % 10);
        assert(a == b);
    } else if a < 10 && b < 10 {
        assert(decimal(a) == seq![(48 + a) as char]);
        assert(decimal(b) == seq![(48 + b) as char]);
        let ca = decimal(a)[0];
        let cb = decimal(b)[0];
        assert(ca == cb);
        assert(ca as u32 == 48 + a);
        assert(cb as u32 == 48 + b);
    } else if a < 10 {
        assert(decimal(a).len() == 1);
    } else {
        assert(decimal(b).len() == 1);
    }
}

/// Appends the decimal digits of `n`.
pub fn push_decimal(out: &mut Vec<char>, n: u64)
    ensures
        final(out)@ == old(out)@ + decimal(n as nat),
    decreases n,
{
    if n >= 10 {
        push_decimal(out, n / 10);
    }
    let d = (n % 10) as u8;
    out.push((d + 48) as char);
    proof {
        if n >= 10 {
            assert(final(out)@ =~= old(out)@ + decimal(n as nat));
        } else {
            assert(final(out)@ =~= old(out)@ + decimal(n as nat));
        }
    }
}

/// A table of media links: each entry maps a link as written in a card to
/// the path of the file it names, relative to the collection root.
pub struct MediaResolver {
    entries: Vec<(String, String)>,
}

/// The path a table gives for a link: the first entry for it.
pub open spec fn lookup_media(table: Seq<(Seq<char>, Seq<char>)>, url: Seq<char>) -> Option<Seq<char>>
    decreases table.len(),
{
    if table.len() == 0 {
        None
    } else if table[0].0 == url {
        Some(table[0].1)
    } else {
        lookup_media(table.drop_first(), url)
    }
}

impl MediaResolver {
    /// The entries, as (link, path) pairs.
    pub closed spec fn table(self) -> Seq<(Seq<char>, Seq<char>)> {
        self.entries@.map_values(|e: (String, String)| (e.0@, e.1@))
    }

    /// An empty table.
    pub fn new() -> (r: MediaResolver)
        ensures
            r.table() == Seq::<(Seq<char>, Seq<char>)>::empty(),
    {
        let r = MediaResolver { entries: Vec::new() };
        proof {
            assert(r.table() =~= Seq::<(Seq<char>, Seq<char>)>::empty());
        }
        r
    }

    /// The table with one more entry: `url` names the file at `path`.
    pub fn with_media(self, url: String, path: String) -> (r: MediaResolver)
        ensures
            r.table() == self.table().push((url@, path@)),
    {
        let mut entries = self.entries;
        let ghost e0 = entries@;
        let ghost u = url@;
        let ghost p = path@;
        entries.push((url, path));
        let r = MediaResolver { entries };
        proof {
            assert(r.table() =~= e0.map_values(|e: (String, String)| (e.0@, e.1@)).push((u, p)));
        }
        r
    }

    /// The path recorded for a link.
    pub fn resolve(&self, url: &str) -> (r: Option<String>)
        ensures
            r is Some <==> lookup_media(self.table(), url@) is Some,
            r matches Some(p) ==> Some(p@) == lookup_media(self.table(), url@),
    {
        let key = url.to_owned();
        let mut k: usize = 0;
        proof {
            assert(self.table().skip(0) =~= self.table());
        }
        while k < self.entries.len()
            invariant
                k <= self.entries@.len(),
                key@ == url@,
                lookup_media(self.table(), url@) == lookup_media(self.table().skip(k as int), url@),
            decreases self.entries.len() - k,
        {
            proof {
                assert(self.table().skip(k as int).drop_first() =~= self.table().skip(k + 1));
            }
            if self.entries[k].0 == key {
                return Some(self.entries[k].1.clone());
            }
            k = k + 1;
        }
        proof {
            assert(self.table().skip(k as int) =~= Seq::<(Seq<char>, Seq<char>)>::empty());
        }
        None
    }
}

/// Configuration for Markdown rendering.
pub struct MarkdownRenderConfig {
    /// A media resolver.
    pub resolver: MediaResolver,
    /// The hostname where linked media resources are exposed.
    pub resource_hostname: String,
    /// The port where the server is exposed.
    pub port: u16,
}

/// `http://{hostname}:{port}/file/{path}`.
pub open spec fn file_url(hostname: Seq<char>, port: u16, path: Seq<char>) -> Seq<char> {
    seq!['h', 't', 't', 'p', ':', '/', '/'] + hostname + seq![':'] + decimal(port as nat) + seq![
        '/',
        'f',
        'i',
        'l',
        'e',
        '/',
    ] + path
}

/// The error for a link that does not resolve:
/// `Failed to resolve media path '{url}': unknown media file`.
pub open spec fn unresolved_message(url: Seq<char>) -> Seq<char> {
    seq![
        'F',
        'a',
        'i',
        'l',
        'e',
        'd',
        ' ',
        't',
        'o',
        ' ',
        'r',
        'e',
        's',
        'o',
        'l',
        'v',
        'e',
        ' ',
        'm',
        'e',
        'd',
        'i',
        'a',
        ' ',
        'p',
        'a',
        't',
        'h',
        ' ',
        '\'',
    ] + url + seq!['\'', ':', ' '] + unknown_media_text()
}

/// `unknown media file`
pub open spec fn unknown_media_text() -> Seq<char> {
    seq!['u', 'n', 'k', 'n', 'o', 'w', 'n', ' ', 'm', 'e', 'd', 'i', 'a', ' ', 'f', 'i', 'l', 'e']
}

/// Where a media link of a card points on the local server, or the error
/// message when the link does not resolve.
pub open spec fn media_link(config: MarkdownRenderConfig, url: Seq<char>) -> Result<Seq<char>, Seq<char>> {
    match lookup_media(config.resolver.table(), url) {
        Some(path) => Ok(file_url(config.resource_hostname@, config.port, path)),
        None => Err(unresolved_message(url)),
    }
}

/// Points a media link at the local file server:
/// `http://{hostname}:{port}/file/{path}`.
pub fn modify_url(url: &str, config: &MarkdownRenderConfig) -> (r: Result<String, crate::error::ErrorReport>)
    ensures
        r is Ok <==> media_link(*config, url@) is Ok,
        r matches Ok(u) ==> media_link(*config, url@) == Ok::<Seq<char>, Seq<char>>(u@),
        r matches Err(e) ==> media_link(*config, url@) == Err::<Seq<char>, Seq<char>>(e@),
{
    match config.resolver.resolve(url) {
        Some(path) => {
            let mut s = String::new();
            s.append("http://");
            s.append(config.resource_hostname.as_str());
            let mut port: Vec<char> = vec![':'];
            push_decimal(&mut port, config.port as u64);
            s.append(crate::text::string_from_chars(&port).as_str());
            s.append("/file/");
            s.append(path.as_str());
            proof {
                reveal_strlit("http://");
                reveal_strlit("/file/");
                assert(s@ =~= file_url(config.resource_hostname@, config.port, path@));
            }
            Ok(s)
        },
        None => {
            let mut s = String::new();
            s.append("Failed to resolve media path '");
            s.append(url);
            s.append("': unknown media file");
            proof {
                reveal_strlit("Failed to resolve media path '");
                reveal_strlit("': unknown media file");
                assert(s@ =~= unresolved_message(url@));
            }
            Err(crate::error::ErrorReport::new(s))
        },
    }
}

/// An image link in Markdown: where it points and its title.
pub struct ImageLink {
    pub dest_url: String,
    pub title: String,
}

/// A pulldown-cmark event, as far as rendering needs to know it: the start
/// of an image, or anything else.
pub enum MarkdownEvent {
    Image(ImageLink),
    Other,
}

/// A `MarkdownEvent` as plain text values.
pub enum MarkdownEventView {
    Image { dest_url: Seq<char>, title: Seq<char> },
    Other,
}

impl View for MarkdownEvent {
    type V = MarkdownEventView;

    open spec fn view(&self) -> MarkdownEventView {
        match self {
            MarkdownEvent::Image(link) => MarkdownEventView::Image {
                dest_url: link.dest_url@,
                title: link.title@,
            },
            MarkdownEvent::Other => MarkdownEventView::Other,
        }
    }
}

/// What an image event becomes in the HTML.
pub enum ImageOut {
    /// Raw HTML in place of the image (an audio player).
    Audio(String),
    /// The image, pointed at this URL.
    Image(String),
}

/// An `ImageOut` as plain text values.
pub enum ImageOutView {
    Audio(Seq<char>),
    Image(Seq<char>),
}

impl View for ImageOut {
    type V = ImageOutView;

    open spec fn view(&self) -> ImageOutView {
        match self {
            ImageOut::Audio(h) => ImageOutView::Audio(h@),
            ImageOut::Image(u) => ImageOutView::Image(u@),
        }
    }
}

/// The events pulldown-cmark reads from a Markdown text with tables, math
/// and smart punctuation enabled.
pub uninterp spec fn cmark_events(markdown: Seq<char>) -> Seq<MarkdownEventView>;

/// Calls `pulldown_cmark::Parser::new_ext` with tables, math and smart
/// punctuation enabled, keeping of each event whether it starts an image
/// (with the image's destination and title); the events depend on the text
/// alone.
#[verifier::external_body]
fn parse_markdown_events(markdown: &str) -> (events: Vec<MarkdownEvent>)
    ensures
        events@.map_values(|e: MarkdownEvent| e@) == cmark_events(markdown@),
{
    let options = Options::ENABLE_TABLES | Options::ENABLE_MATH | Options::ENABLE_SMART_PUNCTUATION;
    Parser::new_ext(markdown, options).map(|event| match event {
        Event::Start(Tag::Image { dest_url, title, .. }) => MarkdownEvent::Image(ImageLink {
            dest_url: dest_url.to_string(),
            title: title.to_string(),
        }),
        _ => MarkdownEvent::Other,
    }).collect()
}

/// The HTML pulldown-cmark writes for a Markdown text (tables, math and
/// smart punctuation enabled), the i-th image event replaced as the i-th
/// `ImageOut` says.
pub uninterp spec fn cmark_html(markdown: Seq<char>, images: Seq<ImageOutView>) -> Seq<char>;

/// Calls `pulldown_cmark::Parser::new_ext` (tables, math, smart punctuation)
/// and `pulldown_cmark::html::push_html`, the i-th image start event
/// replaced by raw HTML or by the image with a new destination, as the i-th
/// entry of `images` says; the HTML depends on its arguments alone.
#[verifier::external_body]
fn render_cmark_html(markdown: &str, images: &Vec<ImageOut>) -> (html: String)
    ensures
        html@ == cmark_html(markdown@, images@.map_values(|o: ImageOut| o@)),
{
    let options = Options::ENABLE_TABLES | Options::ENABLE_MATH | Options::ENABLE_SMART_PUNCTUATION;
    let mut outs = images.iter();
    let events = Parser::new_ext(markdown, options).map(|event| match event {
        Event::Start(Tag::Image { link_type, dest_url, title, id }) => match outs.next() {
            Some(ImageOut::Audio(h)) => Event::Html(CowStr::from(h.clone())),
            Some(ImageOut::Image(u)) => Event::Start(Tag::Image { link_type, dest_url: CowStr::from(u.clone()), title, id }),
            None => Event::Start(Tag::Image { link_type, dest_url, title, id }),
        },
        event => event,
    });
    let mut html = String::new();
    push_html(&mut html, events);
    html
}

/// `<audio autoplay controls src="{url}" title="{title}"></audio>`.
pub open spec fn audio_html(url: Seq<char>, title: Seq<char>) -> Seq<char> {
    seq![
        '<', 'a', 'u', 'd', 'i', 'o', ' ', 'a', 'u', 't', 'o', 'p', 'l', 'a', 'y', ' ', 'c', 'o',
        'n', 't', 'r', 'o', 'l', 's', ' ', 's', 'r', 'c', '=', '"',
    ] + url + seq!['"', ' ', 't', 'i', 't', 'l', 'e', '=', '"'] + title + seq![
        '"', '>', '<', '/', 'a', 'u', 'd', 'i', 'o', '>',
    ]
}

/// What each image among `events` becomes: a player for audio, else the
/// image pointed at the local server; or the first link that fails to
/// resolve.
pub open spec fn image_outs(config: MarkdownRenderConfig, events: Seq<MarkdownEventView>) -> Result<
    Seq<ImageOutView>,
    Seq<char>,
>
    decreases events.len(),
{
    if events.len() == 0 {
        Ok(seq![])
    } else {
        match events[0] {
            MarkdownEventView::Other => image_outs(config, events.drop_first()),
            MarkdownEventView::Image { dest_url, title } => match media_link(config, dest_url) {
                Err(m) => Err(m),
                Ok(url) => match image_outs(config, events.drop_first()) {
                    Err(m) => Err(m),
                    Ok(rest) => Ok(
                        seq![
                            if is_audio_url(url) {
                                ImageOutView::Audio(audio_html(url, title))
                            } else {
                                ImageOutView::Image(url)
                            },
                        ] + rest,
                    ),
                },
            },
        }
    }
}

/// The HTML of a Markdown text, or the error of its first unresolvable
/// media link.
pub open spec fn markdown_html(config: MarkdownRenderConfig, markdown: Seq<char>) -> Result<Seq<char>, Seq<char>> {
    let text = latex_rewritten(markdown);
    match image_outs(config, cmark_events(text)) {
        Err(m) => Err(m),
        Ok(images) => Ok(cmark_html(text, images)),
    }
}

/// Renders Markdown to HTML: LaTeX delimiters are rewritten, media links
/// are pointed at the local file server, and links to audio files become
/// audio players.
pub fn markdown_to_html(config: &MarkdownRenderConfig, markdown: &str) -> (r: Result<String, crate::error::ErrorReport>)
    ensures
        r is Ok <==> markdown_html(*config, markdown@) is Ok,
        r matches Ok(h) ==> markdown_html(*config, markdown@) == Ok::<Seq<char>, Seq<char>>(h@),
        r matches Err(e) ==> markdown_html(*config, markdown@) == Err::<Seq<char>, Seq<char>>(e@),
{
    let rewritten = rewrite_latex_delimiters(markdown);
    let events = parse_markdown_events(rewritten.as_str());
    let ghost evs = events@.map_values(|e: MarkdownEvent| e@);
    let mut outs: Vec<ImageOut> = Vec::new();
    let mut k: usize = 0;
    proof {
        assert(evs.skip(0) =~= evs);
    }
    while k < events.len()
        invariant
            k <= events@.len(),
            evs == events@.map_values(|e: MarkdownEvent| e@),
            evs == cmark_events(rewritten@),
            rewritten@ == latex_rewritten(markdown@),
            image_outs(*config, evs) is Ok <==> image_outs(*config, evs.skip(k as int)) is Ok,
            image_outs(*config, evs) is Err ==> image_outs(*config, evs)
                == image_outs(*config, evs.skip(k as int)),
            image_outs(*config, evs) matches Ok(all) ==> image_outs(*config, evs.skip(k as int))
                matches Ok(rest) && all == outs@.map_values(|o: ImageOut| o@) + rest,
        decreases events.len() - k,
    {
        proof {
            assert(evs.skip(k as int).drop_first() =~= evs.skip(k + 1));
            assert(evs.skip(k as int)[0] == events@[k as int]@);
        }
        match &events[k] {
            MarkdownEvent::Other => {},
            MarkdownEvent::Image(link) => {
                match modify_url(link.dest_url.as_str(), config) {
                    Err(e) => {
                        proof {
                            let ev = evs.skip(k as int);
                            assert(ev[0] == MarkdownEventView::Image {
                                dest_url: link.dest_url@,
                                title: link.title@,
                            });
                            assert(image_outs(*config, ev) == Err::<Seq<ImageOutView>, Seq<char>>(e@));
                        }
                        return Err(e);
                    },
                    Ok(url) => {
                        let ghost before = outs@.map_values(|o: ImageOut| o@);
                        if is_audio_file(url.as_str()) {
                            outs.push(ImageOut::Audio(audio_player(url.as_str(), link.title.as_str())));
                        } else {
                            outs.push(ImageOut::Image(url));
                        }
                        proof {
                            let ghost now = outs@.map_values(|o: ImageOut| o@);
                            assert(now =~= before.push(now.last()));
                            if let Ok(all) = image_outs(*config, evs) {
                                if let Ok(rest) = image_outs(*config, evs.skip(k + 1)) {
                                    assert(all == now + rest);
                                }
                            }
                        }
                    },
                }
            },
        }
        k = k + 1;
    }
    proof {
        assert(evs.skip(k as int) =~= Seq::<MarkdownEventView>::empty());
        assert(outs@.map_values(|o: ImageOut| o@) + Seq::<ImageOutView>::empty() =~= outs@.map_values(|o: ImageOut| o@));
    }
    Ok(render_cmark_html(rewritten.as_str(), &outs))
}

/// `<audio autoplay controls src="{url}" title="{title}"></audio>`.
fn audio_player(url: &str, title: &str) -> (h: String)
    ensures
        h@ == audio_html(url@, title@),
{
    let mut s = String::new();
    s.append("<audio autoplay controls src=\"");
    s.append(url);
    s.append("\" title=\"");
    s.append(title);
    s.append("\"></audio>");
    proof {
        reveal_strlit("<audio autoplay controls src=\"");
        reveal_strlit("\" title=\"");
        reveal_strlit("\"></audio>");
        assert(s@ =~= audio_html(url@, title@));
    }
    s
}

/// HTML without the paragraph wrapper: `<p>X</p>\n` becomes `X`; other text
/// is kept as it is.
pub open spec fn without_paragraph(html: Seq<char>) -> Seq<char> {
    if html.len() >= 8 && html.take(3) == seq!['<', 'p', '>'] && html.skip(html.len() - 5) == seq![
        '<',
        '/',
        'p',
        '>',
        '\n',
    ] {
        html.subrange(3, html.len() - 5)
    } else {
        html
    }
}

/// Removes the `<p>...</p>\n` wrapper of single-paragraph HTML.
pub fn strip_paragraph(html: &str) -> (r: String)
    ensures
        r@ == without_paragraph(html@),
{
    let v = crate::text::chars_of(html);
    let n = v.len();
    let open_tag: Vec<char> = vec!['<', 'p', '>'];
    let close_tag: Vec<char> = vec!['<', '/', 'p', '>', '\n'];
    if n >= 8 && crate::text::chars_match_at(&v, 0, &open_tag) && crate::text::chars_match_at(
        &v,
        n - 5,
        &close_tag,
    ) {
        proof {
            assert(v@.take(3) =~= v@.subrange(0, 3));
            assert(v@.skip(n - 5) =~= v@.subrange(n - 5, n as int));
        }
        let mut out: Vec<char> = Vec::new();
        let mut k: usize = 3;
        while k < n - 5
            invariant
                3 <= k <= n - 5,
                n == v@.len(),
                out@ == v@.subrange(3, k as int),
            decreases n - 5 - k,
        {
            out.push(v[k]);
            proof {
                assert(v@.subrange(3, k + 1) =~= v@.subrange(3, k as int).push(v@[k as int]));
            }
            k = k + 1;
        }
        crate::text::string_from_chars(&out)
    } else {
        proof {
            if n >= 8 {
                if v@.take(3) == seq!['<', 'p', '>'] {
                    assert(v@.take(3) =~= v@.subrange(0, 3));
                    assert(open_tag@ =~= seq!['<', 'p', '>']);
                }
                if v@.skip(n - 5) == seq!['<', '/', 'p', '>', '\n'] {
                    assert(v@.skip(n - 5) =~= v@.subrange(n - 5, n as int));
                    assert(close_tag@ =~= seq!['<', '/', 'p', '>', '\n']);
                }
            }
        }
        crate::text::string_from_chars(&v)
    }
}

/// Renders Markdown to HTML, without the paragraph wrapper when the result
/// is a single paragraph.
pub fn markdown_to_html_inline(config: &MarkdownRenderConfig, markdown: &str) -> (r: Result<String, crate::error::ErrorReport>)
    ensures
        r is Ok <==> markdown_html(*config, markdown@) is Ok,
        r matches Ok(h) ==> markdown_html(*config, markdown@) matches Ok(full) && h@
            == without_paragraph(full),
        r matches Err(e) ==> markdown_html(*config, markdown@) == Err::<Seq<char>, Seq<char>>(e@),
{
    match markdown_to_html(config, markdown) {
        Ok(text) => Ok(strip_paragraph(text.as_str())),
        Err(e) => Err(e),
    }
}

} // verus!
