//! Content addresses: an [`AssetId`] is the 32-byte BLAKE3 digest of an
//! asset's bytes, written in text as `blake3:` followed by 64 hex digits.

use vstd::prelude::*;

verus! {

/// Number of bytes in a digest.
pub const DIGEST_LEN: usize = 32;

/// What BLAKE3 returns for the given input bytes.
pub uninterp spec fn blake3_digest(data: Seq<u8>) -> Seq<u8>;

/// Calls `blake3::hash` and copies the 32-byte digest out.
/// Trusted: the digest is `blake3_digest` of the input, which depends on the
/// input bytes alone; nothing else about BLAKE3 is claimed.
#[verifier::external_body]
pub(crate) fn blake3_hash(data: &[u8]) -> (r: [u8; 32])
    ensures
        r@ == blake3_digest(data@),
{
    *blake3::hash(data).as_bytes()
}

/// Content address of an asset.
///
/// Equality, ordering and hashing are those of the 32 digest bytes
/// (lexicographic order).
#[derive(Clone, Copy, Debug, PartialEq, Eq, PartialOrd, Ord, Hash)]
pub struct AssetId {
    bytes: [u8; 32],
}

impl View for AssetId {
    type V = Seq<u8>;

    closed spec fn view(&self) -> Seq<u8> {
        self.bytes@
    }
}

/// Errors from [`AssetId::parse`].
#[derive(Clone, Copy, Debug, PartialEq, Eq)]
pub enum AssetIdParseError {
    /// The text does not start with `blake3:`.
    MissingPrefix,
    /// The digest part is not exactly 64 characters long.
    WrongLength { got: usize },
    /// The character at this position of the digest part is not a hex digit.
    InvalidHexDigit { index: usize },
}

/// Lexicographic byte order: `a` sorts before `b`.
pub open spec fn lex_lt(a: Seq<u8>, b: Seq<u8>) -> bool
    decreases a.len(),
{
    if a.len() == 0 || b.len() == 0 {
        a.len() == 0 && b.len() > 0
    } else if a[0] != b[0] {
        a[0] < b[0]
    } else {
        lex_lt(a.drop_first(), b.drop_first())
    }
}

pub proof fn lemma_lex_irreflexive(a: Seq<u8>)
    ensures
        !lex_lt(a, a),
    decreases a.len(),
{
    if a.len() > 0 {
        lemma_lex_irreflexive(a.drop_first());
    }
}

pub proof fn lemma_lex_asymmetric(a: Seq<u8>, b: Seq<u8>)
    ensures
        !(lex_lt(a, b) && lex_lt(b, a)),
    decreases a.len(),
{
    if a.len() > 0 && b.len() > 0 && a[0] == b[0] {
        lemma_lex_asymmetric(a.drop_first(), b.drop_first());
    }
}

pub proof fn lemma_lex_transitive(a: Seq<u8>, b: Seq<u8>, c: Seq<u8>)
    requires
        lex_lt(a, b),
        lex_lt(b, c),
    ensures
        lex_lt(a, c),
    decreases a.len(),
{
    if a.len() > 0 && b.len() > 0 && c.len() > 0 && a[0] == b[0] && b[0] == c[0] {
        lemma_lex_transitive(a.drop_first(), b.drop_first(), c.drop_first());
    }
}

pub proof fn lemma_lex_total(a: Seq<u8>, b: Seq<u8>)
    requires
        a != b,
    ensures
        lex_lt(a, b) || lex_lt(b, a),
    decreases a.len(),
{
    if a.len() > 0 && b.len() > 0 && a[0] == b[0] {
        if a.drop_first() == b.drop_first() {
            assert(a =~= seq![a[0]] + a.drop_first());
            assert(b =~= seq![b[0]] + b.drop_first());
        }
        lemma_lex_total(a.drop_first(), b.drop_first());
    } else if a.len() == 0 && b.len() == 0 {
        assert(a =~= b);
    }
}

/// Lower-case hex digit for a nibble.
pub open spec fn hex_char(n: int) -> char {
    if n < 10 { ((48 + n) as u8) as char } else { ((87 + n) as u8) as char }
}

/// Two lower-case hex characters per byte, most significant nibble first.
pub open spec fn hex_of(s: Seq<u8>) -> Seq<char>
    decreases s.len(),
{
    if s.len() == 0 {
        Seq::empty()
    } else {
        hex_of(s.drop_last()) + seq![hex_char(s.last() as int / 16), hex_char(s.last() as int % 16)]
    }
}

/// The `blake3:` prefix of the text form, as bytes.
pub open spec fn id_prefix() -> Seq<u8> {
    seq![98u8, 108u8, 97u8, 107u8, 101u8, 51u8, 58u8]
}

pub open spec fn is_hex_digit(c: u8) -> bool {
    (48 <= c <= 57) || (97 <= c <= 102) || (65 <= c <= 70)
}

pub open spec fn hex_value(c: u8) -> int {
    if 48 <= c <= 57 {
        c - 48
    } else if 97 <= c <= 102 {
        c - 87
    } else {
        c - 55
    }
}

/// Bytes decoded from pairs of hex digits.
pub open spec fn decode_hex(digits: Seq<u8>) -> Seq<u8> {
    Seq::new(
        digits.len() / 2,
        |i: int| (hex_value(digits[2 * i]) * 16 + hex_value(digits[2 * i + 1])) as u8,
    )
}

/// Position of the first non-hex character at or after position 7.
pub open spec fn first_bad_digit(text: Seq<u8>) -> int {
    choose|i: int|
        7 <= i < text.len() && !is_hex_digit(#[trigger] text[i]) && forall|j: int|
            7 <= j < i ==> is_hex_digit(#[trigger] text[j])
}

/// What `parse` returns for the given text.
pub open spec fn parse_spec(text: Seq<u8>) -> Result<Seq<u8>, AssetIdParseError> {
    if text.len() < 7 || text.subrange(0, 7) != id_prefix() {
        Err(AssetIdParseError::MissingPrefix)
    } else if text.len() - 7 != 64 {
        Err(AssetIdParseError::WrongLength { got: (text.len() - 7) as usize })
    } else if exists|i: int| 7 <= i < text.len() && !is_hex_digit(#[trigger] text[i]) {
        Err(AssetIdParseError::InvalidHexDigit { index: (first_bad_digit(text) - 7) as usize })
    } else {
        Ok(decode_hex(text.subrange(7, 71)))
    }
}

fn hex_digit_str(n: u8) -> (s: &'static str)
    requires
        n < 16,
    ensures
        s@ == seq![hex_char(n as int)],
{
    proof {
        reveal_strlit("0");
        reveal_strlit("1");
        reveal_strlit("2");
        reveal_strlit("3");
        reveal_strlit("4");
        reveal_strlit("5");
        reveal_strlit("6");
        reveal_strlit("7");
        reveal_strlit("8");
        reveal_strlit("9");
        reveal_strlit("a");
        reveal_strlit("b");
        reveal_strlit("c");
        reveal_strlit("d");
        reveal_strlit("e");
        reveal_strlit("f");
    }
    match n {
        0 => "0",
        1 => "1",
        2 => "2",
        3 => "3",
        4 => "4",
        5 => "5",
        6 => "6",
        7 => "7",
        8 => "8",
        9 => "9",
        10 => "a",
        11 => "b",
        12 => "c",
        13 => "d",
        14 => "e",
        _ => "f",
    }
}

fn hex_digit_value(c: u8) -> (v: u8)
    requires
        is_hex_digit(c),
    ensures
        v == hex_value(c),
        v < 16,
{
    if 48 <= c && c <= 57 {
        c - 48
    } else if 97 <= c && c <= 102 {
        c - 87
    } else {
        c - 55
    }
}

impl AssetId {
    /// Every id has exactly 32 bytes.
    pub proof fn lemma_len(&self)
        ensures
            self@.len() == 32,
    {
    }

    /// The id of the given bytes: their BLAKE3 digest.
    pub fn from_bytes(bytes: &[u8]) -> (id: AssetId)
        ensures
            id@ == blake3_digest(bytes@),
            id@.len() == 32,
    {
        AssetId { bytes: blake3_hash(bytes) }
    }

    /// Wrap a raw 32-byte digest.
    pub fn from_raw(raw: [u8; 32]) -> (id: AssetId)
        ensures
            id@ == raw@,
    {
        AssetId { bytes: raw }
    }

    /// The raw 32-byte digest.
    pub fn raw(&self) -> (r: [u8; 32])
        ensures
            r@ == self@,
    {
        self.bytes
    }

    /// One byte of the digest.
    pub fn byte(&self, i: usize) -> (b: u8)
        requires
            i < 32,
        ensures
            b == self@[i as int],
    {
        self.bytes[i]
    }

    /// Whether two ids name the same digest.
    pub fn same_as(&self, other: &AssetId) -> (r: bool)
        ensures
            r == (self@ == other@),
    {
        let mut i: usize = 0;
        while i < 32
            invariant
                0 <= i <= 32,
                self@.len() == 32,
                other@.len() == 32,
                forall|j: int| 0 <= j < i ==> self@[j] == other@[j],
            decreases 32 - i,
        {
            if self.bytes[i] != other.bytes[i] {
                return false;
            }
            i = i + 1;
        }
        assert(self@ =~= other@);
        true
    }

    /// Whether this id sorts before `other` (lexicographic byte order).
    pub fn lex_less(&self, other: &AssetId) -> (r: bool)
        ensures
            r == lex_lt(self@, other@),
    {
        let mut i: usize = 0;
        assert(self@.skip(0) =~= self@);
        assert(other@.skip(0) =~= other@);
        while i < 32
            invariant
                0 <= i <= 32,
                self@.len() == 32,
                other@.len() == 32,
                lex_lt(self@, other@) == lex_lt(self@.skip(i as int), other@.skip(i as int)),
            decreases 32 - i,
        {
            let a = self.bytes[i];
            let b = other.bytes[i];
            assert(self@.skip(i as int)[0] == a);
            assert(other@.skip(i as int)[0] == b);
            if a != b {
                return a < b;
            }
            assert(self@.skip(i as int).drop_first() =~= self@.skip(i + 1));
            assert(other@.skip(i as int).drop_first() =~= other@.skip(i + 1));
            i = i + 1;
        }
        assert(self@.skip(32).len() == 0);
        false
    }

    /// The 64 lower-case hex digits of the digest.
    pub fn hex(&self) -> (s: String)
        ensures
            s@ == hex_of(self@),
            s@.len() == 64,
    {
        let mut s = String::new();
        let mut i: usize = 0;
        while i < 32
            invariant
                0 <= i <= 32,
                self@.len() == 32,
                s@ == hex_of(self@.take(i as int)),
                s@.len() == 2 * i,
            decreases 32 - i,
        {
            let b = self.bytes[i];
            let hi = hex_digit_str(b / 16);
            let lo = hex_digit_str(b % 16);
            s.append(hi);
            s.append(lo);
            proof {
                assert(self@.take(i + 1).drop_last() =~= self@.take(i as int));
            }
            i = i + 1;
        }
        proof {
            assert(self@.take(32) =~= self@);
        }
        s
    }

    /// Text form: `blake3:` followed by the 64 hex digits.
    pub fn to_text(&self) -> (s: String)
        ensures
            s@ == "blake3:"@ + hex_of(self@),
    {
        let mut s = String::from_str("blake3:");
        let h = self.hex();
        s.append(h.as_str());
        s
    }

    /// Parse the text form `blake3:<64 hex digits>` (hex digits of either case).
    pub fn parse(text: &[u8]) -> (r: Result<AssetId, AssetIdParseError>)
        ensures
            match (r, parse_spec(text@)) {
                (Ok(id), Ok(bytes)) => id@ == bytes,
                (Err(e), Err(f)) => e == f,
                _ => false,
            },
    {
        let n = text.len();
        if n < 7 || text[0] != 98 || text[1] != 108 || text[2] != 97 || text[3] != 107
            || text[4] != 101 || text[5] != 51 || text[6] != 58 {
            proof {
                if n >= 7 {
                    assert(text@.subrange(0, 7)[0] == text@[0]);
                    assert(text@.subrange(0, 7)[1] == text@[1]);
                    assert(text@.subrange(0, 7)[2] == text@[2]);
                    assert(text@.subrange(0, 7)[3] == text@[3]);
                    assert(text@.subrange(0, 7)[4] == text@[4]);
                    assert(text@.subrange(0, 7)[5] == text@[5]);
                    assert(text@.subrange(0, 7)[6] == text@[6]);
                    assert(text@.subrange(0, 7) != id_prefix());
                }
            }
            return Err(AssetIdParseError::MissingPrefix);
        }
        assert(text@.subrange(0, 7) =~= id_prefix());
        if n - 7 != 64 {
            return Err(AssetIdParseError::WrongLength { got: n - 7 });
        }
        let mut k: usize = 7;
        while k < n
            invariant
                7 <= k <= n,
                n == 71,
                n == text@.len(),
                text@.subrange(0, 7) == id_prefix(),
                forall|j: int| 7 <= j < k ==> is_hex_digit(#[trigger] text@[j]),
            decreases n - k,
        {
            if !(48 <= text[k] && text[k] <= 57) && !(97 <= text[k] && text[k] <= 102)
                && !(65 <= text[k] && text[k] <= 70) {
                proof {
                    assert(!is_hex_digit(text@[k as int]));
                    assert(7 <= k < text@.len() && !is_hex_digit(text@[k as int]) && forall|j: int|
                            7 <= j < k ==> is_hex_digit(#[trigger] text@[j]));
                    assert(exists|i: int| 7 <= i < text@.len() && !is_hex_digit(#[trigger] text@[i]));
                    let i = first_bad_digit(text@);
                    assert(!is_hex_digit(text@[k as int]));
                    if i < k {
                        assert(is_hex_digit(text@[i]));
                    }
                    if i > k {
                        assert(is_hex_digit(text@[k as int]));
                    }
                    assert(i == k);
                }
                return Err(AssetIdParseError::InvalidHexDigit { index: k - 7 });
            }
            k = k + 1;
        }
        let mut raw: [u8; 32] = [0u8; 32];
        let mut i: usize = 0;
        let ghost digits = text@.subrange(7, 71);
        while i < 32
            invariant
                0 <= i <= 32,
                n == 71,
                n == text@.len(),
                text@.subrange(0, 7) == id_prefix(),
                digits == text@.subrange(7, 71),
                forall|j: int| 7 <= j < 71 ==> is_hex_digit(#[trigger] text@[j]),
                raw@.len() == 32,
                forall|j: int| 0 <= j < i ==> raw@[j] == decode_hex(digits)[j],
            decreases 32 - i,
        {
            assert(is_hex_digit(text@[7 + 2 * i]));
            assert(is_hex_digit(text@[8 + 2 * i]));
            let hi = hex_digit_value(text[7 + 2 * i]);
            let lo = hex_digit_value(text[8 + 2 * i]);
            raw[i] = hi * 16 + lo;
            i = i + 1;
        }
        let id = AssetId { bytes: raw };
        assert(id@ =~= decode_hex(digits));
        Ok(id)
    }
}

} // verus!
