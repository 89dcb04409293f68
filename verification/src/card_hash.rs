//! Content hashes of cards: 32-byte BLAKE3 digests, their lowercase
//! hexadecimal text, and their byte-wise order.

use vstd::prelude::*;
use vstd::utf8::*;

use crate::error::ErrorReport;
use crate::text::string_from_chars;

verus! {

/// The BLAKE3 digest of a byte sequence.
pub uninterp spec fn blake3_digest(input: Seq<u8>) -> Seq<u8>;

/// Calls `blake3::hash`, which returns the 32-byte BLAKE3 digest of its
/// input; the digest depends on the input bytes alone. (The crate documents
/// that feeding a `Hasher` several slices digests their concatenation.)
#[verifier::external_body]
fn blake3_hash(input: &[u8]) -> (digest: [u8; 32])
    ensures
        digest@ == blake3_digest(input@),
{
    *blake3::hash(input).as_bytes()
}

/// The value of an ASCII hexadecimal digit (either case), or -1.
pub open spec fn hex_value(b: u8) -> int {
    if 48 <= b <= 57 {
        b - 48
    } else if 97 <= b <= 102 {
        b - 87
    } else if 65 <= b <= 70 {
        b - 55
    } else {
        -1
    }
}

/// Is this the hexadecimal text of a 32-byte digest?
pub open spec fn is_digest_hex(text: Seq<u8>) -> bool {
    text.len() == 64 && forall|i: int| 0 <= i < 64 ==> hex_value(#[trigger] text[i]) >= 0
}

/// The 32 bytes spelled by 64 hexadecimal digits.
pub open spec fn digest_of_hex(text: Seq<u8>) -> Seq<u8> {
    Seq::new(32, |i: int| (16 * hex_value(text[2 * i]) + hex_value(text[2 * i + 1])) as u8)
}

/// The text of the error `blake3::Hash::from_hex` reports for a bad input.
pub uninterp spec fn blake3_hex_error_text(text: Seq<u8>) -> Seq<char>;

/// Calls `blake3::Hash::from_hex`: it accepts exactly 64 hexadecimal digits
/// of either case and decodes them pairwise, high nibble first.
#[verifier::external_body]
fn blake3_from_hex(text: &[u8]) -> (res: Result<[u8; 32], String>)
    ensures
        res is Ok <==> is_digest_hex(text@),
        res matches Ok(b) ==> b@ == digest_of_hex(text@),
        res matches Err(e) ==> e@ == blake3_hex_error_text(text@),
{
    blake3::Hash::from_hex(text).map(|h| *h.as_bytes()).map_err(|e| e.to_string())
}

/// The lowercase hexadecimal digit for a value below 16.
pub open spec fn hex_digit(n: int) -> char {
    if n < 10 {
        (48 + n) as char
    } else {
        (87 + n) as char
    }
}

/// Lowercase hexadecimal text of a byte sequence, high nibble first.
pub open spec fn hex_text(bytes: Seq<u8>) -> Seq<char> {
    Seq::new(
        2 * bytes.len(),
        |i: int|
            if i % 2 == 0 {
                hex_digit(bytes[i / 2] as int / 16)
            } else {
                hex_digit(bytes[i / 2] as int % 16)
            },
    )
}

/// Parsing the hexadecimal text of a digest gives the digest back.
pub proof fn lemma_hex_roundtrip(d: Seq<u8>)
    requires
        d.len() == 32,
    ensures
        is_digest_hex(encode_utf8(hex_text(d))),
        digest_of_hex(encode_utf8(hex_text(d))) == d,
{
    let t = hex_text(d);
    lemma_ascii_encoding(t);
    let bytes = encode_utf8(t);
    assert forall|i: int| 0 <= i < 64 implies hex_value(#[trigger] bytes[i]) >= 0 && hex_value(bytes[i]) == if i % 2 == 0 {
        d[i / 2] as int / 16
    } else {
        d[i / 2] as int % 16
    } by {
        assert(bytes[i] == t[i] as u32);
    }
    assert forall|i: int| 0 <= i < 32 implies #[trigger] digest_of_hex(bytes)[i] == d[i] by {
        assert(hex_value(bytes[2 * i]) == d[i] as int / 16);
        assert(hex_value(bytes[2 * i + 1]) == d[i] as int % 16);
    }
    assert(digest_of_hex(bytes) =~= d);
}

/// The UTF-8 encoding of text made of ASCII characters is its character
/// codes.
pub proof fn lemma_ascii_encoding(t: Seq<char>)
    requires
        forall|i: int| 0 <= i < t.len() ==> (#[trigger] t[i] as u32) < 128,
    ensures
        encode_utf8(t).len() == t.len(),
        forall|i: int| 0 <= i < t.len() ==> encode_utf8(t)[i] == (#[trigger] t[i]) as u32,
    decreases t.len(),
{
    if t.len() > 0 {
        lemma_ascii_encoding(t.drop_first());
        let c = t[0] as u32;
        assert(encode_scalar(c) == seq![c as u8]) by {
            assert(c < 128);
            assert(has_width_1_encoding(c)) by (bit_vector)
                requires c < 128;
            assert(leading_byte_width_1(c) == c as u8) by (bit_vector)
                requires c < 128;
        }
        assert forall|i: int| 0 <= i < t.len() implies encode_utf8(t)[i] == (#[trigger] t[i]) as u32 by {
            if i > 0 {
                assert(t.drop_first()[i - 1] == t[i]);
            }
        }
    }
}

/// Byte-wise lexicographic order.
pub open spec fn bytes_lt(a: Seq<u8>, b: Seq<u8>) -> bool
    decreases a.len(),
{
    if a.len() == 0 {
        b.len() > 0
    } else if b.len() == 0 {
        false
    } else if a[0] != b[0] {
        a[0] < b[0]
    } else {
        bytes_lt(a.drop_first(), b.drop_first())
    }
}

/// `bytes_lt` is irreflexive.
pub proof fn lemma_bytes_lt_irreflexive(a: Seq<u8>)
    ensures
        !bytes_lt(a, a),
    decreases a.len(),
{
    if a.len() > 0 {
        lemma_bytes_lt_irreflexive(a.drop_first());
    }
}

/// `bytes_lt` is asymmetric and total on distinct sequences.
pub proof fn lemma_bytes_lt_total(a: Seq<u8>, b: Seq<u8>)
    ensures
        bytes_lt(a, b) ==> !bytes_lt(b, a),
        a != b ==> bytes_lt(a, b) || bytes_lt(b, a),
    decreases a.len(),
{
    if a.len() > 0 && b.len() > 0 {
        lemma_bytes_lt_total(a.drop_first(), b.drop_first());
        if a != b && a[0] == b[0] {
            assert(a.drop_first() != b.drop_first()) by {
                if a.drop_first() == b.drop_first() {
                    assert(a =~= seq![a[0]] + a.drop_first());
                    assert(b =~= seq![b[0]] + b.drop_first());
                }
            }
        }
    } else if a.len() == 0 && b.len() == 0 {
        assert(a =~= b);
    }
}

/// `bytes_lt` is transitive.
pub proof fn lemma_bytes_lt_transitive(a: Seq<u8>, b: Seq<u8>, c: Seq<u8>)
    requires
        bytes_lt(a, b),
        bytes_lt(b, c),
    ensures
        bytes_lt(a, c),
    decreases a.len(),
{
    if a.len() > 0 && b.len() > 0 && c.len() > 0 && a[0] == b[0] && b[0] == c[0] {
        lemma_bytes_lt_transitive(a.drop_first(), b.drop_first(), c.drop_first());
    }
}

/// The hash identifying a card's content.
#[derive(Clone, Copy, Debug, Eq, Hash)]
pub struct CardHash {
    bytes: [u8; 32],
}

impl View for CardHash {
    type V = Seq<u8>;

    closed spec fn view(&self) -> Seq<u8> {
        self.bytes@
    }
}

impl CardHash {
    /// The digest always has 32 bytes.
    pub proof fn lemma_len(&self)
        ensures
            self@.len() == 32,
    {
    }

    /// The hash of a byte sequence.
    pub fn hash_bytes(bytes: &[u8]) -> (h: CardHash)
        ensures
            h@ == blake3_digest(bytes@),
    {
        CardHash { bytes: blake3_hash(bytes) }
    }

    /// The hash whose bytes are these.
    pub fn from_bytes(bytes: [u8; 32]) -> (h: CardHash)
        ensures
            h@ == bytes@,
    {
        CardHash { bytes }
    }

    /// The digest bytes.
    pub fn to_bytes(&self) -> (b: [u8; 32])
        ensures
            b@ == self@,
    {
        self.bytes
    }

    /// Lowercase hexadecimal text of the hash (64 characters).
    pub fn to_hex(&self) -> (s: String)
        ensures
            s@ == hex_text(self@),
    {
        let mut out: Vec<char> = Vec::new();
        let mut i: usize = 0;
        while i < 32
            invariant
                i <= 32,
                self.bytes@.len() == 32,
                out@ =~= hex_text(self.bytes@.take(i as int)),
            decreases 32 - i,
        {
            let b = self.bytes[i];
            let hi = b / 16;
            let lo = b % 16;
            out.push(hex_digit_char(hi));
            out.push(hex_digit_char(lo));
            proof {
                assert(hex_text(self.bytes@.take(i + 1)) =~= hex_text(self.bytes@.take(i as int))
                    + seq![hex_digit(b as int / 16), hex_digit(b as int % 16)]);
            }
            i = i + 1;
        }
        proof {
            assert(self.bytes@.take(32) =~= self.bytes@);
        }
        string_from_chars(&out)
    }

    /// Parses 64 hexadecimal digits (either case) into a hash.
    pub fn from_hex(text: &str) -> (res: Result<CardHash, ErrorReport>)
        ensures
            res is Ok <==> is_digest_hex(encode_utf8(text@)),
            res matches Ok(h) ==> h@ == digest_of_hex(encode_utf8(text@)),
            res matches Err(e) ==> e@ == blake3_hex_error_text(encode_utf8(text@)),
    {
        match blake3_from_hex(text.as_bytes()) {
            Ok(bytes) => Ok(CardHash { bytes }),
            Err(e) => Err(ErrorReport::new(e)),
        }
    }

    /// Byte-wise comparison: is this hash ordered before `other`?
    pub fn less_than(&self, other: &CardHash) -> (r: bool)
        ensures
            r == bytes_lt(self@, other@),
    {
        let mut i: usize = 0;
        while i < 32
            invariant
                i <= 32,
                self.bytes@.len() == 32,
                other.bytes@.len() == 32,
                self.bytes@.take(i as int) == other.bytes@.take(i as int),
            decreases 32 - i,
        {
            let a = self.bytes[i];
            let b = other.bytes[i];
            if a != b {
                proof {
                    lemma_bytes_lt_at(self.bytes@, other.bytes@, i as int);
                }
                return a < b;
            }
            proof {
                assert(self.bytes@.take(i + 1) =~= self.bytes@.take(i as int).push(a));
                assert(other.bytes@.take(i + 1) =~= other.bytes@.take(i as int).push(b));
            }
            i = i + 1;
        }
        proof {
            assert(self.bytes@ =~= self.bytes@.take(32));
            assert(other.bytes@ =~= other.bytes@.take(32));
            lemma_bytes_lt_irreflexive(self.bytes@);
        }
        false
    }

    /// Are the two hashes equal?
    pub fn same(&self, other: &CardHash) -> (r: bool)
        ensures
            r == (self@ == other@),
    {
        let mut i: usize = 0;
        while i < 32
            invariant
                i <= 32,
                self.bytes@.len() == 32,
                other.bytes@.len() == 32,
                forall|k: int| 0 <= k < i ==> self.bytes@[k] == other.bytes@[k],
            decreases 32 - i,
        {
            if self.bytes[i] != other.bytes[i] {
                return false;
            }
            i = i + 1;
        }
        proof {
            assert(self.bytes@ =~= other.bytes@);
        }
        true
    }
}

/// Two byte sequences of one length that agree before `i` and differ at `i`
/// are ordered by their bytes at `i`.
proof fn lemma_bytes_lt_at(a: Seq<u8>, b: Seq<u8>, i: int)
    requires
        a.len() == b.len(),
        0 <= i < a.len(),
        a.take(i) == b.take(i),
        a[i] != b[i],
    ensures
        bytes_lt(a, b) == (a[i] < b[i]),
    decreases i,
{
    if i > 0 {
        assert(a[0] == a.take(i)[0]);
        assert(b[0] == b.take(i)[0]);
        assert(a.drop_first().take(i - 1) =~= a.take(i).drop_first());
        assert(b.drop_first().take(i - 1) =~= b.take(i).drop_first());
        lemma_bytes_lt_at(a.drop_first(), b.drop_first(), i - 1);
    }
}

/// The lowercase hexadecimal digit for a value below 16.
fn hex_digit_char(n: u8) -> (c: char)
    requires
        n < 16,
    ensures
        c == hex_digit(n as int),
{
    if n < 10 {
        (n + 48) as char
    } else {
        (n + 87) as char
    }
}

/// Does some hash in `v` have the digest `d`?
pub open spec fn contains_digest(v: Seq<CardHash>, d: Seq<u8>) -> bool {
    exists|i: int| 0 <= i < v.len() && (#[trigger] v[i])@ == d
}

/// Does `v` hold the hash `h`?
pub fn hash_in(v: &Vec<CardHash>, h: &CardHash) -> (r: bool)
    ensures
        r == contains_digest(v@, h@),
{
    let mut k: usize = 0;
    while k < v.len()
        invariant
            k <= v@.len(),
            forall|j: int| 0 <= j < k ==> (#[trigger] v@[j])@ != h@,
        decreases v.len() - k,
    {
        if v[k].same(h) {
            return true;
        }
        k = k + 1;
    }
    false
}

/// Are the hashes strictly increasing (so also distinct)?
pub open spec fn strictly_sorted(v: Seq<CardHash>) -> bool {
    forall|i: int, j: int| 0 <= i < j < v.len() ==> bytes_lt(#[trigger] v[i]@, #[trigger] v[j]@)
}

/// Adds a hash to a strictly increasing list, unless it is already there.
pub fn insert_sorted(v: &mut Vec<CardHash>, h: CardHash)
    requires
        strictly_sorted(old(v)@),
    ensures
        strictly_sorted(final(v)@),
        forall|d: Seq<u8>| contains_digest(final(v)@, d) <==> (contains_digest(old(v)@, d) || d == h@),
{
    let mut p: usize = 0;
    while p < v.len() && v[p].less_than(&h)
        invariant
            p <= v@.len(),
            v@ == old(v)@,
            forall|i: int| 0 <= i < p ==> bytes_lt((#[trigger] v@[i])@, h@),
        decreases v.len() - p,
    {
        p = p + 1;
    }
    if p < v.len() && v[p].same(&h) {
        return;
    }
    let ghost before = v@;
    proof {
        if p < v.len() {
            lemma_bytes_lt_total(v@[p as int]@, h@);
        }
    }
    v.insert(p, h);
    proof {
        assert forall|i: int, j: int| 0 <= i < j < v@.len() implies bytes_lt(#[trigger] v@[i]@, #[trigger] v@[j]@) by {
            if j < p {
            } else if j == p {
            } else if i < p {
                assert(v@[j] == before[j - 1]);
                if j - 1 > p {
                    assert(bytes_lt(before[p as int]@, before[j - 1]@));
                    lemma_bytes_lt_transitive(h@, before[p as int]@, before[j - 1]@);
                }
                lemma_bytes_lt_transitive(before[i]@, h@, before[j - 1]@);
            } else if i == p {
                assert(v@[j] == before[j - 1]);
                if j - 1 > p {
                    assert(bytes_lt(before[p as int]@, before[j - 1]@));
                    lemma_bytes_lt_transitive(h@, before[p as int]@, before[j - 1]@);
                }
            } else {
                assert(v@[i] == before[i - 1]);
                assert(v@[j] == before[j - 1]);
            }
        }
        assert forall|d: Seq<u8>| contains_digest(v@, d) <==> (contains_digest(before, d) || d == h@) by {
            if contains_digest(v@, d) {
                let i = choose|i: int| 0 <= i < v@.len() && (#[trigger] v@[i])@ == d;
                if i < p {
                    assert(v@[i] == before[i]);
                } else if i > p {
                    assert(v@[i] == before[i - 1]);
                }
            }
            if contains_digest(before, d) {
                let i = choose|i: int| 0 <= i < before.len() && (#[trigger] before[i])@ == d;
                if i < p {
                    assert(v@[i] == before[i]);
                } else {
                    assert(v@[i + 1] == before[i]);
                }
            }
            if d == h@ {
                assert(v@[p as int] == h);
            }
        }
    }
}

impl PartialEq for CardHash {
    fn eq(&self, other: &CardHash) -> (r: bool) {
        self.same(other)
    }
}

impl vstd::std_specs::cmp::PartialEqSpecImpl for CardHash {
    open spec fn obeys_eq_spec() -> bool {
        true
    }

    open spec fn eq_spec(&self, other: &CardHash) -> bool {
        self@ == other@
    }
}

} // verus!
