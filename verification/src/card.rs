//! Cards: basic question/answer cards and cloze deletions, their content
//! hashes and family hashes.

use vstd::prelude::*;
use vstd::utf8::*;

use crate::card_hash::blake3_digest;
use crate::card_hash::lemma_ascii_encoding;
use crate::card_hash::CardHash;
use crate::error::ErrorReport;
use crate::text::bytes_of;
use crate::text::chars_equal;
use crate::text::chars_match_at;
use crate::text::chars_of;
use crate::text::string_from_chars;
use crate::text::copy_bytes;
use crate::text::lemma_encode_utf8_concat;
use crate::text::push_str_bytes;
use crate::text::string_from_utf8;
use crate::text::trim;
use crate::text::trimmed;
use crate::text::utf8_error_text;

verus! {

/// The name of a deck.
pub type DeckName = String;

/// Whether a card is a basic or a cloze card.
#[derive(Debug, PartialEq, Eq, Structural, Clone, Copy)]
pub enum CardType {
    Basic,
    Cloze,
}

/// The content of a card.
#[derive(Debug)]
pub enum CardContent {
    Basic {
        question: String,
        answer: String,
    },
    Cloze {
        /// The text of the card without brackets.
        text: String,
        /// The byte position of the first character of the deletion.
        start: usize,
        /// The byte position of the last character of the deletion.
        end: usize,
    },
}

/// The ASCII bytes of `Basic`, which open the hash input of a basic card.
pub open spec fn basic_tag() -> Seq<u8> {
    seq![66u8, 97u8, 115u8, 105u8, 99u8]
}

/// The ASCII bytes of `Cloze`, which open the hash input of a cloze card.
pub open spec fn cloze_tag() -> Seq<u8> {
    seq![67u8, 108u8, 111u8, 122u8, 101u8]
}

/// The `n` least significant bytes of `x`, least significant first.
pub open spec fn le_bytes(x: nat, n: nat) -> Seq<u8>
    decreases n,
{
    if n == 0 {
        seq![]
    } else {
        seq![(x % 256) as u8] + le_bytes(x / 256, (n - 1) as nat)
    }
}

/// The number of bytes in a `usize` (as `usize::to_le_bytes` returns).
pub open spec fn usize_width() -> nat {
    (usize::BITS / 8) as nat
}

/// The text of the cloze pair made from a term and a definition:
/// `Term: {term}\n\nDefinition: {definition}`.
pub open spec fn term_definition_text(term: Seq<char>, definition: Seq<char>) -> Seq<char> {
    seq!['T', 'e', 'r', 'm', ':', ' '] + term + seq![
        '\n',
        '\n',
        'D',
        'e',
        'f',
        'i',
        'n',
        'i',
        't',
        'i',
        'o',
        'n',
        ':',
        ' ',
    ] + definition
}

impl CardContent {
    /// The bytes fed to the hash function for this content.
    pub open spec fn hash_input(self) -> Seq<u8> {
        match self {
            CardContent::Basic { question, answer } => basic_tag() + encode_utf8(question@)
                + encode_utf8(answer@),
            CardContent::Cloze { text, start, end } => cloze_tag() + encode_utf8(text@) + le_bytes(
                start as nat,
                usize_width(),
            ) + le_bytes(end as nat, usize_width()),
        }
    }

    /// The content hash.
    pub open spec fn content_digest(self) -> Seq<u8> {
        blake3_digest(self.hash_input())
    }

    /// The family hash: shared by every cloze card made from the same text;
    /// basic cards have none.
    pub open spec fn family_digest(self) -> Option<Seq<u8>> {
        match self {
            CardContent::Basic { .. } => None,
            CardContent::Cloze { text, .. } => Some(blake3_digest(cloze_tag() + encode_utf8(text@))),
        }
    }

    /// Is this a cloze whose deletion lies within its text?
    pub open spec fn cloze_span_ok(self) -> bool {
        match self {
            CardContent::Basic { .. } => false,
            CardContent::Cloze { text, start, end } => end < usize::MAX && start <= end + 1 && end
                + 1 <= encode_utf8(text@).len(),
        }
    }

    /// The bytes under the cloze deletion.
    pub open spec fn deleted_bytes(self) -> Seq<u8> {
        match self {
            CardContent::Basic { .. } => seq![],
            CardContent::Cloze { text, start, end } => encode_utf8(text@).subrange(
                start as int,
                end + 1,
            ),
        }
    }

    /// A basic card with the given question and answer, each trimmed of
    /// surrounding white space.
    pub fn new_basic(question: &str, answer: &str) -> (c: CardContent)
        ensures
            c matches CardContent::Basic { question: q, answer: a } && q@ == trimmed(question@)
                && a@ == trimmed(answer@),
    {
        CardContent::Basic { question: trim(question), answer: trim(answer) }
    }

    /// A cloze card over `prompt`, deleting the bytes `start..=end`.
    pub fn new_cloze(prompt: &str, start: usize, end: usize) -> (c: CardContent)
        ensures
            c matches CardContent::Cloze { text: t, start: s, end: e } && t@ == prompt@ && s
                == start && e == end,
    {
        CardContent::Cloze { text: prompt.to_owned(), start, end }
    }

    /// Two cloze cards over `Term: {term}\n\nDefinition: {definition}` (both
    /// trimmed): the first deletes the term, the second the definition.
    pub fn new_cloze_pair_from_term_definition(term: &str, definition: &str) -> (pair: [CardContent; 2])
        requires
            20 + encode_utf8(trimmed(term@)).len() + encode_utf8(trimmed(definition@)).len()
                <= usize::MAX,
        ensures
            ({
                let t = trimmed(term@);
                let d = trimmed(definition@);
                let tl = encode_utf8(t).len();
                let dl = encode_utf8(d).len();
                &&& pair[0] matches CardContent::Cloze { text, start, end } && text@
                    == term_definition_text(t, d) && start == 6 && end == 5 + tl
                &&& pair[1] matches CardContent::Cloze { text, start, end } && text@
                    == term_definition_text(t, d) && start == 20 + tl && end == 19 + tl + dl
            }),
    {
        let term = trim(term);
        let definition = trim(definition);
        let tl = term.as_str().len();
        let dl = definition.as_str().len();
        proof {
            broadcast use vstd::string::group_string_axioms;
        }
        let mut text = String::new();
        text.append("Term: ");
        text.append(term.as_str());
        text.append("\n\nDefinition: ");
        text.append(definition.as_str());
        proof {
            reveal_strlit("Term: ");
            reveal_strlit("\n\nDefinition: ");
            assert(text@ =~= term_definition_text(term@, definition@));
        }
        let first = CardContent::Cloze { text: text.clone(), start: 6, end: 6 + tl - 1 };
        let second = CardContent::Cloze { text, start: 20 + tl, end: 20 + tl + dl - 1 };
        [first, second]
    }

    /// The content hash.
    pub fn hash(&self) -> (h: CardHash)
        ensures
            h@ == self.content_digest(),
    {
        let mut msg: Vec<u8> = Vec::new();
        match self {
            CardContent::Basic { question, answer } => {
                push_tag(&mut msg, 66, 97, 115, 105, 99);
                push_str_bytes(&mut msg, question.as_str());
                push_str_bytes(&mut msg, answer.as_str());
                proof {
                    assert(msg@ =~= self.hash_input());
                }
            },
            CardContent::Cloze { text, start, end } => {
                push_tag(&mut msg, 67, 108, 111, 122, 101);
                push_str_bytes(&mut msg, text.as_str());
                push_le_bytes(&mut msg, *start);
                push_le_bytes(&mut msg, *end);
                proof {
                    assert(msg@ =~= self.hash_input());
                }
            },
        }
        CardHash::hash_bytes(msg.as_slice())
    }

    /// The family hash: for a cloze card, the hash of its tag and text, so
    /// all cloze cards from the same text share it; `None` for a basic card.
    pub fn family_hash(&self) -> (h: Option<CardHash>)
        ensures
            h is Some <==> self.family_digest() is Some,
            h matches Some(x) ==> Some(x@) == self.family_digest(),
    {
        match self {
            CardContent::Basic { .. } => None,
            CardContent::Cloze { text, .. } => {
                let mut msg: Vec<u8> = Vec::new();
                push_tag(&mut msg, 67, 108, 111, 122, 101);
                push_str_bytes(&mut msg, text.as_str());
                proof {
                    assert(msg@ =~= cloze_tag() + encode_utf8(text@));
                }
                Some(CardHash::hash_bytes(msg.as_slice()))
            },
        }
    }

    /// For a cloze card: the text under the deletion.
    pub fn cloze_text(&self) -> (res: Result<String, ErrorReport>)
        requires
            self.cloze_span_ok(),
        ensures
            res is Ok <==> valid_utf8(self.deleted_bytes()),
            res matches Ok(s) ==> s@ == decode_utf8(self.deleted_bytes()),
            res matches Err(e) ==> e@ == utf8_error_text(self.deleted_bytes()),
    {
        match self {
            CardContent::Cloze { text, start, end } => {
                let bytes = bytes_of(text.as_str());
                let deleted = copy_bytes(&bytes, *start, *end + 1);
                match string_from_utf8(deleted) {
                    Ok(s) => Ok(s),
                    Err(e) => Err(ErrorReport::new(e)),
                }
            },
            CardContent::Basic { .. } => {
                proof {
                    assert(false);
                }
                Err(ErrorReport::from_str("not a cloze card"))
            },
        }
    }
}

/// The path of `file` relative to `root`, for absolute paths as
/// `canonicalize` returns them (no empty, `.` or `..` components, no
/// trailing `/` but on the root itself): what `Path::strip_prefix` gives on
/// such paths, `None` where `root` is not a leading part of `file`.
pub open spec fn relative_path(root: Seq<char>, file: Seq<char>) -> Option<Seq<char>> {
    if file == root {
        Some(Seq::empty())
    } else if root == seq!['/'] && file.len() > 0 && file[0] == '/' {
        Some(file.skip(1))
    } else if root.len() < file.len() && file.take(root.len() as int) == root && file[root.len() as int] == '/' {
        Some(file.skip(root.len() as int + 1))
    } else {
        None
    }
}

/// All cloze cards made from the same text have the same family hash.
pub proof fn lemma_same_text_same_family(a: CardContent, b: CardContent)
    requires
        a is Cloze,
        b is Cloze,
        a->Cloze_text@ == b->Cloze_text@,
    ensures
        a.family_digest() == b.family_digest(),
        a.family_digest() is Some,
{
}

/// In the text of a term–definition pair, the term's bytes start at byte 6
/// and the definition's 14 bytes after the term's end, and nothing follows
/// the definition.
pub proof fn lemma_term_definition_layout(t: Seq<char>, d: Seq<char>)
    ensures
        ({
            let bytes = encode_utf8(term_definition_text(t, d));
            let tl = encode_utf8(t).len() as int;
            let dl = encode_utf8(d).len() as int;
            &&& bytes.len() == 20 + tl + dl
            &&& bytes.subrange(6, 6 + tl) == encode_utf8(t)
            &&& bytes.subrange(20 + tl, 20 + tl + dl) == encode_utf8(d)
        }),
{
    let head = seq!['T', 'e', 'r', 'm', ':', ' '];
    let mid = seq!['\n', '\n', 'D', 'e', 'f', 'i', 'n', 'i', 't', 'i', 'o', 'n', ':', ' '];
    lemma_ascii_encoding(head);
    lemma_ascii_encoding(mid);
    assert(term_definition_text(t, d) == head + t + mid + d);
    lemma_encode_utf8_concat(head + t + mid, d);
    lemma_encode_utf8_concat(head + t, mid);
    lemma_encode_utf8_concat(head, t);
    let bytes = encode_utf8(term_definition_text(t, d));
    let tl = encode_utf8(t).len() as int;
    let dl = encode_utf8(d).len() as int;
    assert(bytes == encode_utf8(head) + encode_utf8(t) + encode_utf8(mid) + encode_utf8(d));
    assert(bytes.subrange(6, 6 + tl) =~= encode_utf8(t));
    assert(bytes.subrange(20 + tl, 20 + tl + dl) =~= encode_utf8(d));
}

/// The two clozes of a term–definition pair belong to one family, lie
/// within their text, and delete the term and the definition respectively,
/// so their cloze texts are the trimmed term and definition.
pub proof fn lemma_term_definition_pair(first: CardContent, second: CardContent, t: Seq<char>, d: Seq<char>)
    requires
        20 + encode_utf8(t).len() + encode_utf8(d).len() <= usize::MAX,
        first matches CardContent::Cloze { text, start, end } && text@ == term_definition_text(t, d)
            && start == 6 && end == 5 + encode_utf8(t).len(),
        second matches CardContent::Cloze { text, start, end } && text@ == term_definition_text(t, d)
            && start == 20 + encode_utf8(t).len() && end == 19 + encode_utf8(t).len() + encode_utf8(d).len(),
    ensures
        first.family_digest() == second.family_digest(),
        first.cloze_span_ok(),
        second.cloze_span_ok(),
        first.deleted_bytes() == encode_utf8(t),
        second.deleted_bytes() == encode_utf8(d),
{
    lemma_term_definition_layout(t, d);
}

/// A relative path put back under its root gives the file's path again.
pub proof fn lemma_relative_path_rejoins(root: Seq<char>, file: Seq<char>)
    requires
        relative_path(root, file) is Some,
    ensures
        ({
            let r = relative_path(root, file)->0;
            ||| r.len() == 0 && file == root
            ||| root == seq!['/'] && file == root + r
            ||| file == root + seq!['/'] + r
        }),
{
    let r = relative_path(root, file)->0;
    if file == root {
        assert(r =~= Seq::<char>::empty());
    } else if root == seq!['/'] && file.len() > 0 && file[0] == '/' {
        assert(file =~= root + r);
    } else {
        assert(file =~= file.take(root.len() as int) + seq!['/'] + r);
    }
}

/// `le_bytes` gives `n` bytes.
proof fn lemma_le_bytes_len(x: nat, n: nat)
    ensures
        le_bytes(x, n).len() == n,
    decreases n,
{
    if n > 0 {
        lemma_le_bytes_len(x / 256, (n - 1) as nat);
    }
}

/// `256` to the power `n`.
spec fn byte_bound(n: nat) -> nat
    decreases n,
{
    if n == 0 {
        1
    } else {
        256 * byte_bound((n - 1) as nat)
    }
}

/// A `usize` fits in `usize_width()` bytes.
proof fn lemma_usize_fits(x: usize)
    ensures
        x < byte_bound(usize_width()),
{
    reveal_with_fuel(byte_bound, 9);
    assert(usize::BITS == 32 || usize::BITS == 64);
    if usize::BITS == 32 {
        assert(byte_bound(4) == 0x1_0000_0000);
        assert(x <= 0xffff_ffff);
    } else {
        assert(byte_bound(8) == 0x1_0000_0000_0000_0000);
    }
}

/// Numbers below `256^n` have different `n`-byte encodings.
proof fn lemma_le_bytes_injective(x: nat, y: nat, n: nat)
    requires
        x < byte_bound(n),
        y < byte_bound(n),
        le_bytes(x, n) == le_bytes(y, n),
    ensures
        x == y,
    decreases n,
{
    if n > 0 {
        assert(le_bytes(x, n) == seq![(x % 256) as u8] + le_bytes(x / 256, (n - 1) as nat));
        assert(le_bytes(y, n) == seq![(y % 256) as u8] + le_bytes(y / 256, (n - 1) as nat));
        assert(le_bytes(x, n)[0] == (x % 256) as u8);
        assert(le_bytes(y, n)[0] == (y % 256) as u8);
        assert(le_bytes(x, n)[0] == le_bytes(y, n)[0]);
        assert((x % 256) as u8 == x % 256);
        assert((y % 256) as u8 == y % 256);
        assert(x % 256 == y % 256);
        assert(le_bytes(x, n).drop_first() =~= le_bytes(x / 256, (n - 1) as nat));
        assert(le_bytes(y, n).drop_first() =~= le_bytes(y / 256, (n - 1) as nat));
        assert(x / 256 < byte_bound((n - 1) as nat));
        assert(y / 256 < byte_bound((n - 1) as nat));
        lemma_le_bytes_injective(x / 256, y / 256, (n - 1) as nat);
        assert(x == 256 * (x / 256) + x % 256);
        assert(y == 256 * (y / 256) + y % 256);
    }
}

/// A cloze card's hash covers its text: clozes over different texts have
/// different hash inputs, whatever their deletions, and so do clozes over
/// one text with different deletions.
pub proof fn lemma_cloze_hash_input_injective(a: CardContent, b: CardContent)
    requires
        a is Cloze,
        b is Cloze,
        (a->Cloze_text@, a->Cloze_start, a->Cloze_end) != (b->Cloze_text@, b->Cloze_start, b->Cloze_end),
    ensures
        a.hash_input() != b.hash_input(),
{
    if a.hash_input() == b.hash_input() {
        let ta = encode_utf8(a->Cloze_text@);
        let tb = encode_utf8(b->Cloze_text@);
        let w = usize_width();
        lemma_usize_fits(a->Cloze_start);
        lemma_usize_fits(a->Cloze_end);
        lemma_usize_fits(b->Cloze_start);
        lemma_usize_fits(b->Cloze_end);
        lemma_le_bytes_len(a->Cloze_start as nat, w);
        lemma_le_bytes_len(a->Cloze_end as nat, w);
        lemma_le_bytes_len(b->Cloze_start as nat, w);
        lemma_le_bytes_len(b->Cloze_end as nat, w);
        let ia = a.hash_input();
        assert(ia.len() == 5 + ta.len() + 2 * w);
        assert(ta.len() == tb.len());
        assert(ia.subrange(5, 5 + ta.len() as int) =~= ta);
        assert(b.hash_input().subrange(5, 5 + tb.len() as int) =~= tb);
        encode_utf8_decode_utf8(a->Cloze_text@);
        encode_utf8_decode_utf8(b->Cloze_text@);
        assert(a->Cloze_text@ == b->Cloze_text@);
        let sa = ia.subrange(5 + ta.len() as int, 5 + ta.len() as int + w as int);
        let ea = ia.subrange(5 + ta.len() as int + w as int, ia.len() as int);
        assert(sa =~= le_bytes(a->Cloze_start as nat, w));
        assert(sa =~= le_bytes(b->Cloze_start as nat, w));
        assert(ea =~= le_bytes(a->Cloze_end as nat, w));
        assert(ea =~= le_bytes(b->Cloze_end as nat, w));
        lemma_le_bytes_injective(a->Cloze_start as nat, b->Cloze_start as nat, w);
        lemma_le_bytes_injective(a->Cloze_end as nat, b->Cloze_end as nat, w);
    }
}

/// The message of a path that does not lie under the collection root.
pub open spec fn prefix_not_found() -> Seq<char> {
    "prefix not found"@
}

/// A card parsed from a deck file.
#[derive(Debug)]
pub struct Card {
    /// The name of the deck this card belongs to.
    deck_name: DeckName,
    /// The absolute path of the file this card was parsed from.
    file_path: String,
    /// The line number range that contains the card.
    range: (usize, usize),
    /// The card's content.
    content: CardContent,
    /// The cached hash of the card's content.
    hash: CardHash,
}

impl Card {
    /// The cached hash is the hash of the content.
    #[verifier::type_invariant]
    spec fn hash_is_cached(self) -> bool {
        self.hash@ == self.content.content_digest()
    }

    /// The deck name.
    pub closed spec fn deck(self) -> Seq<char> {
        self.deck_name@
    }

    /// The path of the file the card was parsed from.
    pub closed spec fn path(self) -> Seq<char> {
        self.file_path@
    }

    /// The line range of the card.
    pub closed spec fn lines(self) -> (usize, usize) {
        self.range
    }

    /// The content.
    pub closed spec fn body(self) -> CardContent {
        self.content
    }

    /// The content hash.
    pub open spec fn digest(self) -> Seq<u8> {
        self.body().content_digest()
    }

    /// The family hash (cloze cards only).
    pub open spec fn family(self) -> Option<Seq<u8>> {
        self.body().family_digest()
    }

    /// The hash under which the card is shown once: the family hash of a
    /// cloze card, the content hash of a basic card.
    #[verifier::opaque]
    pub open spec fn shown_digest(self) -> Seq<u8> {
        match self.family() {
            Some(f) => f,
            None => self.digest(),
        }
    }

    /// Is this a cloze card?
    pub open spec fn is_cloze(self) -> bool {
        self.body() is Cloze
    }

    /// Construct a new card.
    pub fn new(deck_name: DeckName, file_path: String, range: (usize, usize), content: CardContent) -> (c: Card)
        ensures
            c.deck() == deck_name@,
            c.path() == file_path@,
            c.lines() == range,
            c.body() == content,
    {
        let hash = content.hash();
        Card { deck_name, file_path, range, content, hash }
    }

    /// The name of the deck this card was parsed from.
    pub fn deck_name(&self) -> (d: &DeckName)
        ensures
            d@ == self.deck(),
    {
        &self.deck_name
    }

    /// The card's content.
    pub fn content(&self) -> (c: &CardContent)
        ensures
            *c == self.body(),
    {
        &self.content
    }

    /// The card's hash.
    pub fn hash(&self) -> (h: CardHash)
        ensures
            h@ == self.digest(),
    {
        proof {
            use_type_invariant(self);
        }
        self.hash
    }

    /// The card's family hash. This value is the same for all cloze cards
    /// parsed from the same source text.
    pub fn family_hash(&self) -> (h: Option<CardHash>)
        ensures
            h is Some <==> self.family() is Some,
            h matches Some(x) ==> Some(x@) == self.family(),
    {
        self.content.family_hash()
    }

    /// The hash under which the card is shown once: its family hash if it
    /// has one, else its own hash.
    pub fn shown_hash(&self) -> (h: CardHash)
        ensures
            h@ == self.shown_digest(),
    {
        proof {
            reveal(Card::shown_digest);
        }
        match self.family_hash() {
            Some(f) => f,
            None => self.hash(),
        }
    }

    /// The absolute path of the file this card was parsed from.
    pub fn file_path(&self) -> (p: &String)
        ensures
            p@ == self.path(),
    {
        &self.file_path
    }

    /// The path of a card's file relative to the collection root, given both
    /// canonicalized: e.g., for the root `/foo/bar` and the file
    /// `/foo/bar/baz/deck.md`, `baz/deck.md`.
    pub fn relative_file_path(canon_root: &str, canon_file: &str) -> (res: Result<String, ErrorReport>)
        ensures
            res is Ok <==> relative_path(canon_root@, canon_file@) is Some,
            res matches Ok(p) ==> relative_path(canon_root@, canon_file@) == Some(p@),
            res matches Err(e) ==> e@ == prefix_not_found(),
    {
        let root = chars_of(canon_root);
        let file = chars_of(canon_file);
        let from: usize = if chars_equal(&file, &root) {
            file.len()
        } else if root.len() == 1 && root[0] == '/' && file.len() > 0 && file[0] == '/' {
            proof {
                assert(root@ =~= seq!['/']);
            }
            1
        } else if root.len() < file.len() && chars_match_at(&file, 0, &root) && file[root.len()] == '/' {
            proof {
                assert(file@.take(root@.len() as int) =~= file@.subrange(0, root@.len() as int));
            }
            root.len() + 1
        } else {
            proof {
                if root@ == seq!['/'] {
                    assert(root@.len() == 1 && root@[0] == '/');
                }
                if root@.len() < file@.len() && file@.take(root@.len() as int) == root@ {
                    assert(file@.subrange(0, root@.len() as int) =~= file@.take(root@.len() as int));
                }
            }
            proof {
                reveal_strlit("prefix not found");
            }
            return Err(ErrorReport::from_str("prefix not found"));
        };
        let mut rest: Vec<char> = Vec::new();
        let mut i: usize = from;
        while i < file.len()
            invariant
                from <= i <= file@.len(),
                rest@ == file@.subrange(from as int, i as int),
            decreases file.len() - i,
        {
            rest.push(file[i]);
            proof {
                assert(rest@ =~= file@.subrange(from as int, i + 1));
            }
            i = i + 1;
        }
        proof {
            assert(rest@ =~= file@.skip(from as int));
        }
        Ok(string_from_chars(&rest))
    }

    /// The line range of the card's source text, in the file this card was
    /// parsed from.
    pub fn range(&self) -> (r: (usize, usize))
        ensures
            r == self.lines(),
    {
        self.range
    }

    /// Whether this is a basic or cloze card.
    pub fn card_type(&self) -> (t: CardType)
        ensures
            (t == CardType::Cloze) == self.is_cloze(),
    {
        match &self.content {
            CardContent::Basic { .. } => CardType::Basic,
            CardContent::Cloze { .. } => CardType::Cloze,
        }
    }

    /// For a cloze card: the text under the cloze.
    pub fn cloze_text(&self) -> (res: Result<String, ErrorReport>)
        requires
            self.body().cloze_span_ok(),
        ensures
            res is Ok <==> valid_utf8(self.body().deleted_bytes()),
            res matches Ok(s) ==> s@ == decode_utf8(self.body().deleted_bytes()),
    {
        self.content.cloze_text()
    }
}

impl Clone for CardContent {
    fn clone(&self) -> (c: CardContent)
        ensures
            c == *self,
    {
        match self {
            CardContent::Basic { question, answer } => CardContent::Basic {
                question: question.clone(),
                answer: answer.clone(),
            },
            CardContent::Cloze { text, start, end } => CardContent::Cloze {
                text: text.clone(),
                start: *start,
                end: *end,
            },
        }
    }
}

impl Clone for Card {
    fn clone(&self) -> (c: Card)
        ensures
            c == *self,
    {
        proof {
            use_type_invariant(self);
        }
        Card {
            deck_name: self.deck_name.clone(),
            file_path: self.file_path.clone(),
            range: self.range,
            content: self.content.clone(),
            hash: self.hash,
        }
    }
}

/// Appends five tag bytes.
fn push_tag(out: &mut Vec<u8>, a: u8, b: u8, c: u8, d: u8, e: u8)
    ensures
        final(out)@ == old(out)@ + seq![a, b, c, d, e],
{
    out.push(a);
    out.push(b);
    out.push(c);
    out.push(d);
    out.push(e);
    proof {
        assert(final(out)@ =~= old(out)@ + seq![a, b, c, d, e]);
    }
}

/// Appends the little-endian bytes of `x` (as `usize::to_le_bytes`).
fn push_le_bytes(out: &mut Vec<u8>, x: usize)
    ensures
        final(out)@ == old(out)@ + le_bytes(x as nat, usize_width()),
{
    let n: u32 = usize::BITS / 8;
    let mut v: usize = x;
    let mut k: u32 = 0;
    let ghost start = out@;
    proof {
        assert(start + le_bytes(x as nat, usize_width()) =~= out@ + le_bytes(v as nat, (n - k) as nat));
    }
    while k < n
        invariant
            k <= n,
            n == usize_width(),
            start + le_bytes(x as nat, usize_width()) == out@ + le_bytes(v as nat, (n - k) as nat),
        decreases n - k,
    {
        let ghost before = out@;
        out.push((v % 256) as u8);
        proof {
            assert(before + le_bytes(v as nat, (n - k) as nat) =~= out@ + le_bytes(
                (v / 256) as nat,
                (n - k - 1) as nat,
            ));
        }
        v = v / 256;
        k = k + 1;
    }
    proof {
        assert(out@ + le_bytes(v as nat, 0) =~= out@);
    }
}

} // verus!
