//! The text of the recency index file, read back into rows.
//!
//! Each line is `<tick> <64-hex> <size>`, the three fields separated by
//! whitespace; blank lines are skipped and words after the third are
//! ignored. Ticks and sizes are read as `u64::from_str` reads them (an
//! optional `+`, then decimal digits that fit), the id as 64 hex digits of
//! either case.

use vstd::prelude::*;

use crate::asset_id::{decode_hex, hex_char, hex_of, hex_value, id_prefix, is_hex_digit, parse_spec, AssetId};
use crate::error::CacheError;
use crate::local::{
    as_map, index_line, index_text_of, index_views, lemma_rows_map_distinct, rows_map, IndexEntry,
    IndexView,
};
use crate::recency::{keys_sorted, lemma_sorted_distinct};
use crate::text::{decimal, digit_char, push_decimal};

verus! {

/// `char::is_whitespace`: the Unicode `White_Space` property.
pub open spec fn is_space(c: char) -> bool {
    let n = c as u32;
    ||| 9 <= n <= 13
    ||| n == 32
    ||| n == 0x85
    ||| n == 0xA0
    ||| n == 0x1680
    ||| 0x2000 <= n <= 0x200A
    ||| n == 0x2028
    ||| n == 0x2029
    ||| n == 0x202F
    ||| n == 0x205F
    ||| n == 0x3000
}

/// The lines of a text, split at `'\n'`; the last one is whatever follows
/// the last `'\n'` (possibly nothing).
pub open spec fn lines(t: Seq<char>) -> Seq<Seq<char>>
    decreases t.len(),
{
    if t.len() == 0 {
        seq![Seq::empty()]
    } else {
        let ls = lines(t.drop_last());
        if t.last() == '\n' {
            ls.push(Seq::empty())
        } else {
            ls.drop_last().push(ls.last().push(t.last()))
        }
    }
}

/// The maximal runs of non-whitespace characters of a line, in order.
pub open spec fn words(s: Seq<char>) -> Seq<Seq<char>>
    decreases s.len(),
{
    if s.len() == 0 {
        Seq::empty()
    } else {
        let w = words(s.drop_last());
        let c = s.last();
        if is_space(c) {
            w
        } else if s.len() >= 2 && !is_space(s[s.len() - 2]) {
            w.drop_last().push(w.last().push(c))
        } else {
            w.push(seq![c])
        }
    }
}

pub open spec fn is_decimal_digit(c: char) -> bool {
    48 <= c as u32 <= 57
}

/// Value of a string of decimal digits.
pub open spec fn digits_value(d: Seq<char>) -> nat
    decreases d.len(),
{
    if d.len() == 0 {
        0
    } else {
        digits_value(d.drop_last()) * 10 + ((d.last() as u32) - 48) as nat
    }
}

/// The digits of a word, after an optional leading `+`.
pub open spec fn unsigned_digits(w: Seq<char>) -> Seq<char> {
    if w.len() > 0 && w[0] == '+' {
        w.drop_first()
    } else {
        w
    }
}

/// What `u64::from_str` makes of a word: an optional `+`, then one or more
/// decimal digits whose value fits in a `u64`.
pub open spec fn u64_text(w: Seq<char>) -> Option<u64> {
    let d = unsigned_digits(w);
    if d.len() > 0 && (forall|i: int| 0 <= i < d.len() ==> is_decimal_digit(#[trigger] d[i]))
        && digits_value(d) <= u64::MAX {
        Some(digits_value(d) as u64)
    } else {
        None
    }
}

pub open spec fn is_hex_char(c: char) -> bool {
    let n = c as u32;
    (48 <= n <= 57) || (97 <= n <= 102) || (65 <= n <= 70)
}

/// The id bytes of a word of exactly 64 hex digits.
pub open spec fn hash_text(w: Seq<char>) -> Option<Seq<u8>> {
    if w.len() == 64 && forall|i: int| 0 <= i < 64 ==> is_hex_char(#[trigger] w[i]) {
        Some(decode_hex(w.map_values(|c: char| (c as u32) as u8)))
    } else {
        None
    }
}

/// The row a line's words make: `None` when the line is malformed,
/// `Some(None)` when it has no words, `Some(Some(row))` otherwise.
pub open spec fn row_of_words(ws: Seq<Seq<char>>) -> Option<Option<IndexView>> {
    if ws.len() == 0 {
        Some(None)
    } else if ws.len() < 3 {
        None
    } else {
        match (u64_text(ws[0]), hash_text(ws[1]), u64_text(ws[2])) {
            (Some(tick), Some(id), Some(size)) => Some(Some((id, tick, size))),
            _ => None,
        }
    }
}

/// The rows of a sequence of lines, in order, or `None` if a line is malformed.
pub open spec fn rows_of_lines(ls: Seq<Seq<char>>) -> Option<Seq<IndexView>>
    decreases ls.len(),
{
    if ls.len() == 0 {
        Some(Seq::empty())
    } else {
        match (rows_of_lines(ls.drop_last()), row_of_words(words(ls.last()))) {
            (Some(rs), Some(Some(r))) => Some(rs.push(r)),
            (Some(rs), Some(None)) => Some(rs),
            _ => None,
        }
    }
}

/// The rows of an index file's text, or `None` if a line is malformed.
pub open spec fn index_rows(text: Seq<char>) -> Option<Seq<IndexView>> {
    rows_of_lines(lines(text))
}

/// Why a word does not read as a `u64`, in the words `u64::from_str`
/// reports it with: digits whose value is too large, or some other
/// character.
pub open spec fn u64_fault(w: Seq<char>) -> Seq<char> {
    let d = unsigned_digits(w);
    if d.len() > 0 && (forall|i: int| 0 <= i < d.len() ==> is_decimal_digit(#[trigger] d[i])) {
        "number too large to fit in target type"@
    } else {
        "invalid digit found in string"@
    }
}

/// Why a word is not an asset id's 64 hex digits.
pub open spec fn hash_fault(w: Seq<char>) -> Seq<char> {
    if w.len() != 64 {
        "expected 64 hex digits, got "@ + decimal(w.len())
    } else {
        "not all characters are hex digits"@
    }
}

/// What is wrong with an index line with these words: `None` for a blank
/// or well-formed line, else whether the fault is in the asset id, and
/// the message's tail, which quotes the line or the offending field.
pub open spec fn line_fault(line: Seq<char>, ws: Seq<Seq<char>>) -> Option<(bool, Seq<char>)> {
    if ws.len() == 0 {
        None
    } else if ws.len() == 1 {
        Some((false, "missing hash: `"@ + line + "`"@))
    } else if ws.len() == 2 {
        Some((false, "missing size: `"@ + line + "`"@))
    } else if u64_text(ws[0]) is None {
        Some((false, "bad tick `"@ + ws[0] + "`: "@ + u64_fault(ws[0])))
    } else if hash_text(ws[1]) is None {
        Some((true, "bad hash `"@ + ws[1] + "`: "@ + hash_fault(ws[1])))
    } else if u64_text(ws[2]) is None {
        Some((false, "bad size `"@ + ws[2] + "`: "@ + u64_fault(ws[2])))
    } else {
        None
    }
}

/// A line number as the reader counts it, saturating at `usize::MAX`.
pub open spec fn line_number(n: nat) -> nat {
    if n <= usize::MAX {
        n
    } else {
        usize::MAX as nat
    }
}

/// The first malformed line among `ls`: whether its fault is in the asset
/// id, and the full message naming it.
pub open spec fn first_fault(ls: Seq<Seq<char>>) -> Option<(bool, Seq<char>)>
    decreases ls.len(),
{
    if ls.len() == 0 {
        None
    } else if first_fault(ls.drop_last()) is Some {
        first_fault(ls.drop_last())
    } else {
        match line_fault(ls.last(), words(ls.last())) {
            Some((bad_id, what)) => Some((bad_id, line_error_text(line_number(ls.len()), what))),
            None => None,
        }
    }
}

/// The first malformed line of an index file's text, if any.
pub open spec fn index_fault(text: Seq<char>) -> Option<(bool, Seq<char>)> {
    first_fault(lines(text))
}

proof fn lemma_line_fault_iff(line: Seq<char>, ws: Seq<Seq<char>>)
    ensures
        line_fault(line, ws) is Some <==> row_of_words(ws) is None,
{
}

proof fn lemma_first_fault_iff(ls: Seq<Seq<char>>)
    ensures
        first_fault(ls) is Some <==> rows_of_lines(ls) is None,
    decreases ls.len(),
{
    if ls.len() > 0 {
        lemma_first_fault_iff(ls.drop_last());
        lemma_line_fault_iff(ls.last(), words(ls.last()));
    }
}

proof fn lemma_first_fault_extends(p: Seq<Seq<char>>, q: Seq<Seq<char>>)
    requires
        p.len() <= q.len(),
        q.take(p.len() as int) == p,
        first_fault(p) is Some,
    ensures
        first_fault(q) == first_fault(p),
    decreases q.len(),
{
    if q.len() > p.len() {
        assert(q.drop_last().take(p.len() as int) =~= q.take(p.len() as int));
        lemma_first_fault_extends(p, q.drop_last());
    } else {
        assert(q =~= p);
    }
}

pub open spec fn char_views(ws: Seq<Vec<char>>) -> Seq<Seq<char>> {
    ws.map_values(|v: Vec<char>| v@)
}

proof fn lemma_lines_nonempty(t: Seq<char>)
    ensures
        lines(t).len() >= 1,
    decreases t.len(),
{
    if t.len() > 0 {
        lemma_lines_nonempty(t.drop_last());
    }
}

proof fn lemma_words_nonempty(s: Seq<char>)
    requires
        s.len() > 0,
        !is_space(s.last()),
    ensures
        words(s).len() > 0,
    decreases s.len(),
{
    if s.len() >= 2 && !is_space(s[s.len() - 2]) {
        assert(s.drop_last().last() == s[s.len() - 2]);
        lemma_words_nonempty(s.drop_last());
    }
}

proof fn lemma_digits_value_prefix(d: Seq<char>, j: int)
    requires
        0 <= j <= d.len(),
    ensures
        digits_value(d.take(j)) <= digits_value(d),
    decreases d.len(),
{
    if j < d.len() {
        assert(d.drop_last().take(j) =~= d.take(j));
        lemma_digits_value_prefix(d.drop_last(), j);
    } else {
        assert(d.take(j) =~= d);
    }
}

proof fn lemma_rows_none_extends(p: Seq<Seq<char>>, q: Seq<Seq<char>>)
    requires
        p.len() <= q.len(),
        q.take(p.len() as int) == p,
        rows_of_lines(p) is None,
    ensures
        rows_of_lines(q) is None,
    decreases q.len(),
{
    if q.len() > p.len() {
        assert(q.drop_last().take(p.len() as int) =~= q.take(p.len() as int));
        lemma_rows_none_extends(p, q.drop_last());
    } else {
        assert(q =~= p);
    }
}

/// The finished lines of a prefix of a text are finished lines of the text.
proof fn lemma_lines_prefix(t: Seq<char>, j: int)
    requires
        0 <= j <= t.len(),
    ensures
        lines(t.take(j)).len() <= lines(t).len(),
        lines(t).drop_last().take(lines(t.take(j)).len() - 1) == lines(t.take(j)).drop_last(),
    decreases t.len() - j,
{
    lemma_lines_nonempty(t.take(j));
    lemma_lines_nonempty(t);
    if j < t.len() {
        lemma_lines_prefix(t, j + 1);
        let u = t.take(j);
        let v = t.take(j + 1);
        assert(v.drop_last() =~= u);
        lemma_lines_nonempty(v);
        let a = lines(u);
        let b = lines(v);
        let n = a.len() - 1;
        if v.last() == '\n' {
            assert(b == a.push(Seq::empty()));
            assert(b.drop_last() =~= a);
        } else {
            assert(b == a.drop_last().push(a.last().push(v.last())));
            assert(b.drop_last() =~= a.drop_last());
        }
        assert(b.drop_last().take(n) =~= a.drop_last());
        let m = b.len() - 1;
        assert(lines(t).drop_last().take(m) == b.drop_last());
        assert(lines(t).drop_last().take(n) =~= b.drop_last().take(n));
    } else {
        assert(t.take(j) =~= t);
    }
}

/// The characters of `text`, in order.
pub fn chars_of(text: &str) -> (v: Vec<char>)
    ensures
        v@ == text@,
{
    broadcast use vstd::string::group_string_axioms;
    let mut v: Vec<char> = Vec::new();
    for c in it: text.chars()
        invariant
            v@ == it.seq().take(it.index() as int),
            it.seq() == text@,
    {
        v.push(c);
    }
    assert(v@ == text@);
    v
}

fn is_space_char(c: char) -> (b: bool)
    ensures
        b == is_space(c),
{
    let n = c as u32;
    (9 <= n && n <= 13) || n == 32 || n == 0x85 || n == 0xA0 || n == 0x1680 || (0x2000 <= n && n
        <= 0x200A) || n == 0x2028 || n == 0x2029 || n == 0x202F || n == 0x205F || n == 0x3000
}

/// Read a word as `u64::from_str` does.
fn parse_u64(w: &Vec<char>) -> (r: Option<u64>)
    ensures
        r == u64_text(w@),
{
    let ghost d = unsigned_digits(w@);
    let mut start: usize = 0;
    if w.len() > 0 && w[0] == '+' {
        start = 1;
    }
    assert(d =~= w@.subrange(start as int, w@.len() as int));
    if start >= w.len() {
        return None;
    }
    let mut acc: u64 = 0;
    let mut k: usize = start;
    assert(d.take(0) =~= Seq::<char>::empty());
    while k < w.len()
        invariant
            start <= k <= w@.len(),
            start < w@.len(),
            d == w@.subrange(start as int, w@.len() as int),
            d == unsigned_digits(w@),
            forall|i: int| 0 <= i < k - start ==> is_decimal_digit(#[trigger] d[i]),
            acc == digits_value(d.take(k - start)),
        decreases w@.len() - k,
    {
        let c = w[k];
        let n = c as u32;
        assert(c == w@[k as int]);
        assert(n == c as u32);
        assert(d[k - start] == w@[k as int]);
        if n < 48 || n > 57 {
            assert(!is_decimal_digit(d[k - start]));
            assert(u64_text(w@) is None) by {
                assert(!is_decimal_digit(unsigned_digits(w@)[k - start]));
            }
            return None;
        }
        let dig = (n - 48) as u64;
        let ghost j = k - start + 1;
        proof {
            assert(d.take(j).drop_last() =~= d.take(j - 1));
            assert(d.take(j).last() == d[j - 1]);
            assert(digits_value(d.take(j)) == acc * 10 + dig);
            lemma_digits_value_prefix(d, j);
        }
        match acc.checked_mul(10) {
            None => {
                assert(u64_text(w@) is None) by {
                    assert(digits_value(unsigned_digits(w@)) > u64::MAX);
                }
                return None;
            },
            Some(m) => {
                match m.checked_add(dig) {
                    None => {
                        assert(u64_text(w@) is None) by {
                            assert(digits_value(unsigned_digits(w@)) > u64::MAX);
                        }
                        return None;
                    },
                    Some(a) => {
                        acc = a;
                    },
                }
            },
        }
        k = k + 1;
    }
    assert(d.take(k - start) =~= d);
    Some(acc)
}

/// Read a word of 64 hex digits as an asset id.
fn parse_hash(w: &Vec<char>) -> (r: Option<AssetId>)
    ensures
        match (r, hash_text(w@)) {
            (Some(id), Some(bytes)) => id@ == bytes,
            (None, None) => true,
            _ => false,
        },
{
    if w.len() != 64 {
        return None;
    }
    let mut bytes: Vec<u8> = vec![98u8, 108u8, 97u8, 107u8, 101u8, 51u8, 58u8];
    assert(bytes@ =~= id_prefix());
    let mut k: usize = 0;
    while k < 64
        invariant
            0 <= k <= 64,
            w@.len() == 64,
            bytes@.len() == 7 + k,
            bytes@.subrange(0, 7) == id_prefix(),
            forall|i: int| 0 <= i < k ==> is_hex_char(#[trigger] w@[i]),
            forall|i: int| 0 <= i < k ==> bytes@[7 + i] == (w@[i] as u32) as u8,
            forall|i: int| 7 <= i < 7 + k ==> is_hex_digit(#[trigger] bytes@[i]),
        decreases 64 - k,
    {
        let n = w[k] as u32;
        if !((48 <= n && n <= 57) || (97 <= n && n <= 102) || (65 <= n && n <= 70)) {
            assert(!is_hex_char(w@[k as int]));
            return None;
        }
        let b = n as u8;
        assert(b == (w@[k as int] as u32) as u8);
        let ghost prev = bytes@;
        bytes.push(b);
        proof {
            assert(bytes@.subrange(0, 7) =~= prev.subrange(0, 7));
        }
        k = k + 1;
    }
    let ghost digits = w@.map_values(|c: char| (c as u32) as u8);
    assert(bytes@.subrange(7, 71) =~= digits);
    assert(!(exists|i: int| 7 <= i < bytes@.len() && !is_hex_digit(#[trigger] bytes@[i])));
    assert(parse_spec(bytes@) == Ok::<Seq<u8>, crate::asset_id::AssetIdParseError>(decode_hex(digits)));
    match AssetId::parse(bytes.as_slice()) {
        Ok(id) => Some(id),
        Err(_) => None,
    }
}

/// The error a fault becomes: a fault in the asset id is `BadAssetId`,
/// any other `Io`, each with the fault's message.
pub open spec fn fault_error(e: CacheError, f: Option<(bool, Seq<char>)>) -> bool {
    match f {
        Some((true, m)) => e matches CacheError::BadAssetId(s) && s@ == m,
        Some((false, m)) => e matches CacheError::Io(s) && s@ == m,
        None => false,
    }
}

/// A line's fault with its number put in front of the message.
pub open spec fn numbered(f: Option<(bool, Seq<char>)>, lineno: nat) -> Option<(bool, Seq<char>)> {
    match f {
        Some((bad_id, what)) => Some((bad_id, line_error_text(lineno, what))),
        None => None,
    }
}

/// Why a word does not read as a `u64` (see `u64_fault`).
fn u64_fault_text(w: &Vec<char>) -> (s: &'static str)
    ensures
        s@ == u64_fault(w@),
{
    let ghost d = unsigned_digits(w@);
    let mut start: usize = 0;
    if w.len() > 0 && w[0] == '+' {
        start = 1;
    }
    assert(d =~= w@.subrange(start as int, w@.len() as int));
    proof {
        reveal_strlit("number too large to fit in target type");
        reveal_strlit("invalid digit found in string");
    }
    if start >= w.len() {
        return "invalid digit found in string";
    }
    let mut k: usize = start;
    while k < w.len()
        invariant
            start <= k <= w@.len(),
            d == unsigned_digits(w@),
            d =~= w@.subrange(start as int, w@.len() as int),
            forall|i: int| 0 <= i < k - start ==> is_decimal_digit(#[trigger] d[i]),
        decreases w@.len() - k,
    {
        let n = w[k] as u32;
        assert(d[k - start] == w@[k as int]);
        if !(48 <= n && n <= 57) {
            assert(!is_decimal_digit(d[k - start]));
            assert(d == unsigned_digits(w@));
            assert(!(forall|j: int| 0 <= j < d.len() ==> is_decimal_digit(#[trigger] d[j])));
            assert(u64_fault(w@) == "invalid digit found in string"@);
            return "invalid digit found in string";
        }
        k = k + 1;
    }
    "number too large to fit in target type"
}

/// Append why a word is not 64 hex digits (see `hash_fault`).
fn push_hash_fault(msg: &mut String, w: &Vec<char>)
    ensures
        final(msg)@ == old(msg)@ + hash_fault(w@),
{
    proof {
        reveal_strlit("expected 64 hex digits, got ");
        reveal_strlit("not all characters are hex digits");
    }
    if w.len() != 64 {
        msg.append("expected 64 hex digits, got ");
        push_decimal(msg, w.len() as u64);
    } else {
        msg.append("not all characters are hex digits");
    }
}

/// The message of a malformed word: `<label> `<word>`: <why>`.
fn field_message(label: &str, text: &str, from: usize, to: usize) -> (m: String)
    requires
        from <= to <= text@.len(),
    ensures
        m@ == label@ + " `"@ + text@.subrange(from as int, to as int) + "`: "@,
{
    let mut m = String::from_str(label);
    m.append(" `");
    m.append(text.substring_char(from, to));
    m.append("`: ");
    proof {
        reveal_strlit(" `");
        reveal_strlit("`: ");
    }
    m
}

/// The row a line's words make; on a malformed line, the error naming it.
/// The words lie in `text` at the positions `wstart`; the line is
/// `text[line_start..line_end]`.
fn parse_line(
    text: &str,
    ws: &Vec<Vec<char>>,
    wstart: &Vec<usize>,
    line_start: usize,
    line_end: usize,
    lineno: usize,
) -> (r: Result<Option<(AssetId, IndexEntry)>, CacheError>)
    requires
        text@.len() <= usize::MAX,
        line_start <= line_end <= text@.len(),
        wstart@.len() == ws@.len(),
        forall|k: int|
            0 <= k < ws@.len() ==> #[trigger] wstart@[k] + ws@[k]@.len() <= text@.len() && text@.subrange(
                wstart@[k] as int,
                wstart@[k] + ws@[k]@.len(),
            ) == ws@[k]@,
    ensures
        match (r, row_of_words(char_views(ws@))) {
            (Ok(None), Some(None)) => true,
            (Ok(Some(row)), Some(Some(v))) => (row.0@, row.1.tick, row.1.size) == v,
            (Err(e), None) => fault_error(
                e,
                numbered(
                    line_fault(text@.subrange(line_start as int, line_end as int), char_views(ws@)),
                    lineno as nat,
                ),
            ),
            _ => false,
        },
{
    let ghost views = char_views(ws@);
    let ghost line = text@.subrange(line_start as int, line_end as int);
    proof {
        reveal_strlit("missing hash: `");
        reveal_strlit("missing size: `");
        reveal_strlit("`");
        reveal_strlit("bad tick");
        reveal_strlit("bad hash");
        reveal_strlit("bad size");
        reveal_strlit("bad tick `");
        reveal_strlit("bad hash `");
        reveal_strlit("bad size `");
        reveal_strlit(" `");
        reveal_strlit("`: ");
    }
    if ws.len() == 0 {
        return Ok(None);
    }
    if ws.len() == 1 || ws.len() == 2 {
        let mut m = if ws.len() == 1 {
            String::from_str("missing hash: `")
        } else {
            String::from_str("missing size: `")
        };
        m.append(text.substring_char(line_start, line_end));
        m.append("`");
        return Err(line_error(lineno, m.as_str()));
    }
    assert(views[0] == ws@[0]@ && views[1] == ws@[1]@ && views[2] == ws@[2]@);
    assert(wstart@[0] + ws@[0]@.len() <= text@.len());
    assert(wstart@[1] + ws@[1]@.len() <= text@.len());
    assert(wstart@[2] + ws@[2]@.len() <= text@.len());
    let tick = match parse_u64(&ws[0]) {
        Some(t) => t,
        None => {
            let mut m = field_message("bad tick", text, wstart[0], wstart[0] + ws[0].len());
            m.append(u64_fault_text(&ws[0]));
            assert(m@ =~= "bad tick `"@ + views[0] + "`: "@ + u64_fault(views[0]));
            return Err(line_error(lineno, m.as_str()));
        },
    };
    let id = match parse_hash(&ws[1]) {
        Some(i) => i,
        None => {
            let mut m = field_message("bad hash", text, wstart[1], wstart[1] + ws[1].len());
            push_hash_fault(&mut m, &ws[1]);
            assert(m@ =~= "bad hash `"@ + views[1] + "`: "@ + hash_fault(views[1]));
            return Err(bad_id_line_error(lineno, m.as_str()));
        },
    };
    let size = match parse_u64(&ws[2]) {
        Some(s) => s,
        None => {
            let mut m = field_message("bad size", text, wstart[2], wstart[2] + ws[2].len());
            m.append(u64_fault_text(&ws[2]));
            assert(m@ =~= "bad size `"@ + views[2] + "`: "@ + u64_fault(views[2]));
            return Err(line_error(lineno, m.as_str()));
        },
    };
    Ok(Some((id, IndexEntry { tick, size })))
}

/// Whether a directory name under the cache root names a shard: exactly
/// two hex digits.
pub fn is_shard_name(name: &str) -> (b: bool)
    ensures
        b == (name@.len() == 2 && is_hex_char(name@[0]) && is_hex_char(name@[1])),
{
    let cs = chars_of(name);
    if cs.len() != 2 {
        return false;
    }
    let a = cs[0] as u32;
    let b = cs[1] as u32;
    ((48 <= a && a <= 57) || (97 <= a && a <= 102) || (65 <= a && a <= 70)) && ((48 <= b && b
        <= 57) || (97 <= b && b <= 102) || (65 <= b && b <= 70))
}

/// The asset a payload file name stands for: the name must be exactly 64
/// hex digits.
pub fn payload_file_id(name: &str) -> (r: Option<AssetId>)
    ensures
        match (r, hash_text(name@)) {
            (Some(id), Some(bytes)) => id@ == bytes,
            (None, None) => true,
            _ => false,
        },
{
    let cs = chars_of(name);
    parse_hash(&cs)
}

/// The message of a malformed index line: `index line <n> <what>`.
pub open spec fn line_error_text(lineno: nat, what: Seq<char>) -> Seq<char> {
    "index line "@ + decimal(lineno) + " "@ + what
}

fn line_error(lineno: usize, what: &str) -> (e: CacheError)
    ensures
        e matches CacheError::Io(m) && m@ == line_error_text(lineno as nat, what@),
{
    let mut msg = String::from_str("index line ");
    push_decimal(&mut msg, lineno as u64);
    msg.append(" ");
    msg.append(what);
    proof {
        reveal_strlit("index line ");
        reveal_strlit(" ");
    }
    CacheError::Io(msg)
}

/// The error of a malformed asset id on an index line:
/// `index line <n> <what>`.
fn bad_id_line_error(lineno: usize, what: &str) -> (e: CacheError)
    ensures
        e matches CacheError::BadAssetId(m) && m@ == line_error_text(lineno as nat, what@),
{
    let mut msg = String::from_str("index line ");
    push_decimal(&mut msg, lineno as u64);
    msg.append(" ");
    msg.append(what);
    proof {
        reveal_strlit("index line ");
        reveal_strlit(" ");
    }
    CacheError::BadAssetId(msg)
}

/// Read the rows of an index file's text, in file order.
///
/// The first malformed line is reported, with its number: a malformed
/// asset id as `BadAssetId`, any other fault as `Io`.
pub fn parse_index(text: &str) -> (r: Result<Vec<(AssetId, IndexEntry)>, CacheError>)
    ensures
        match index_rows(text@) {
            Some(rows) => r is Ok && index_views(r->Ok_0@) == rows,
            None => r matches Err(e) && fault_error(e, index_fault(text@)),
        },
{
    let cs = chars_of(text);
    let ghost t = cs@;
    let total = cs.len();
    assert(t.len() == total);
    let mut rows: Vec<(AssetId, IndexEntry)> = Vec::new();
    let mut ws: Vec<Vec<char>> = Vec::new();
    let mut wstart: Vec<usize> = Vec::new();
    let mut at_gap: bool = true;
    let mut lineno: usize = 1;
    let mut line_start: usize = 0;
    let mut i: usize = 0;
    proof {
        assert(t.take(0) =~= Seq::<char>::empty());
        assert(lines(t.take(0)).drop_last() =~= Seq::<Seq<char>>::empty());
        assert(char_views(ws@) =~= Seq::<Seq<char>>::empty());
        assert(index_views(rows@) =~= Seq::<IndexView>::empty());
        assert(t.subrange(0, 0) =~= lines(t.take(0)).last());
    }
    while i < cs.len()
        invariant
            0 <= i <= t.len(),
            t == cs@,
            t == text@,
            t.len() <= usize::MAX,
            lines(t.take(i as int)).len() >= 1,
            rows_of_lines(lines(t.take(i as int)).drop_last()) == Some(index_views(rows@)),
            char_views(ws@) == words(lines(t.take(i as int)).last()),
            at_gap == (lines(t.take(i as int)).last().len() == 0 || is_space(
                lines(t.take(i as int)).last().last(),
            )),
            line_start <= i,
            t.subrange(line_start as int, i as int) == lines(t.take(i as int)).last(),
            lineno as nat == line_number(lines(t.take(i as int)).len()),
            wstart@.len() == ws@.len(),
            forall|k: int|
                0 <= k < ws@.len() ==> #[trigger] wstart@[k] + ws@[k]@.len() <= i && t.subrange(
                    wstart@[k] as int,
                    wstart@[k] + ws@[k]@.len(),
                ) == ws@[k]@,
            !at_gap ==> ws@.len() > 0 && wstart@[ws@.len() - 1] + ws@[ws@.len() - 1]@.len() == i,
        decreases t.len() - i,
    {
        let c = cs[i];
        let ghost ls = lines(t.take(i as int));
        let ghost line = ls.last();
        proof {
            assert(t.take(i + 1).drop_last() =~= t.take(i as int));
            assert(t.take(i + 1).last() == c);
            lemma_lines_nonempty(t.take(i + 1));
        }
        if c == '\n' {
            let ghost before = index_views(rows@);
            proof {
                assert(lines(t.take(i + 1)) == ls.push(Seq::empty()));
                assert(lines(t.take(i + 1)).drop_last() =~= ls);
                assert(ls.drop_last().push(line) =~= ls);
            }
            match parse_line(text, &ws, &wstart, line_start, i, lineno) {
                Err(e) => {
                    proof {
                        assert(rows_of_lines(ls) is None);
                        lemma_first_fault_iff(ls.drop_last());
                        assert(ls.drop_last().len() + 1 == ls.len());
                        assert(first_fault(ls) == numbered(line_fault(line, words(line)), lineno as nat));
                        lemma_lines_prefix(t, i + 1);
                        lemma_lines_nonempty(t);
                        lemma_first_fault_iff(ls);
                        lemma_first_fault_extends(ls, lines(t).drop_last());
                        lemma_first_fault_extends(lines(t).drop_last(), lines(t));
                        assert(lines(t).take(lines(t).drop_last().len() as int) =~= lines(t).drop_last());
                        lemma_rows_none_extends(ls, lines(t).drop_last());
                        assert(rows_of_lines(lines(t)) is None);
                        assert(t.take(t.len() as int) =~= t);
                    }
                    return Err(e);
                },
                Ok(None) => {},
                Ok(Some(row)) => {
                    rows.push(row);
                    assert(index_views(rows@) =~= before.push((row.0@, row.1.tick, row.1.size)));
                },
            }
            ws = Vec::new();
            wstart = Vec::new();
            at_gap = true;
            lineno = lineno.saturating_add(1);
            line_start = i + 1;
            proof {
                assert(char_views(ws@) =~= Seq::<Seq<char>>::empty());
                assert(t.subrange(i + 1, i + 1) =~= Seq::<char>::empty());
            }
        } else {
            let ghost nline = line.push(c);
            proof {
                assert(lines(t.take(i + 1)) == ls.drop_last().push(nline));
                assert(lines(t.take(i + 1)).drop_last() =~= ls.drop_last());
                assert(lines(t.take(i + 1)).last() == nline);
                assert(nline.drop_last() =~= line);
                assert(nline.last() == c);
                assert(t.subrange(line_start as int, i + 1) =~= t.subrange(line_start as int, i as int).push(c));
            }
            if is_space_char(c) {
                at_gap = true;
            } else if at_gap {
                let ghost wbefore = char_views(ws@);
                let ghost ws_before = ws@;
                let ghost wst_before = wstart@;
                let mut word: Vec<char> = Vec::new();
                word.push(c);
                assert(word@ =~= seq![c]);
                ws.push(word);
                wstart.push(i);
                at_gap = false;
                proof {
                    assert(char_views(ws@) =~= wbefore.push(seq![c]));
                    if nline.len() >= 2 {
                        assert(nline[nline.len() - 2] == line.last());
                    }
                    assert(t.subrange(i as int, i + 1) =~= seq![c]);
                    assert forall|k: int| 0 <= k < ws@.len() implies #[trigger] wstart@[k] + ws@[k]@.len() <= i + 1
                        && t.subrange(wstart@[k] as int, wstart@[k] + ws@[k]@.len()) == ws@[k]@ by {
                        if k < ws_before.len() {
                            assert(ws@[k] == ws_before[k]);
                            assert(wstart@[k] == wst_before[k]);
                        }
                    }
                }
            } else {
                proof {
                    lemma_words_nonempty(line);
                    assert(nline[nline.len() - 2] == line.last());
                }
                let ghost wbefore = char_views(ws@);
                let ghost ws_before = ws@;
                let mut last = ws.pop().unwrap();
                assert(last@ == wbefore.last());
                last.push(c);
                ws.push(last);
                proof {
                    assert(char_views(ws@) =~= wbefore.drop_last().push(wbefore.last().push(c)));
                    let m = ws@.len() - 1;
                    let st = wstart@[m];
                    assert(ws@[m]@ == ws_before[m]@.push(c));
                    assert(t.subrange(st as int, st + ws@[m]@.len()) =~= t.subrange(st as int, st + ws_before[m]@.len()).push(c));
                    assert forall|k: int| 0 <= k < ws@.len() implies #[trigger] wstart@[k] + ws@[k]@.len() <= i + 1
                        && t.subrange(wstart@[k] as int, wstart@[k] + ws@[k]@.len()) == ws@[k]@ by {
                        if k < m {
                            assert(ws@[k] == ws_before[k]);
                        }
                    }
                }
            }
        }
        i = i + 1;
    }
    proof {
        assert(t.take(i as int) =~= t);
        let ls = lines(t);
        assert(ls.drop_last().push(ls.last()) =~= ls);
    }
    let ghost before = index_views(rows@);
    match parse_line(text, &ws, &wstart, line_start, i, lineno) {
        Err(e) => {
            proof {
                let ls = lines(t);
                lemma_first_fault_iff(ls.drop_last());
                assert(first_fault(ls) == numbered(line_fault(ls.last(), words(ls.last())), lineno as nat));
            }
            return Err(e);
        },
        Ok(None) => {},
        Ok(Some(row)) => {
            rows.push(row);
            assert(index_views(rows@) =~= before.push((row.0@, row.1.tick, row.1.size)));
        },
    }
    Ok(rows)
}

/// A decimal digit as a character: a digit, neither whitespace nor `'\n'`.
proof fn lemma_digit_char(d: int)
    requires
        0 <= d < 10,
    ensures
        is_decimal_digit(digit_char(d)),
        (digit_char(d) as u32) - 48 == d,
        !is_space(digit_char(d)),
        digit_char(d) != '\n',
        digit_char(d) != '+',
{
}

proof fn lemma_hex_char(n: int)
    requires
        0 <= n < 16,
    ensures
        is_hex_char(hex_char(n)),
        hex_value(((hex_char(n) as u32) as u8)) == n,
        !is_space(hex_char(n)),
        hex_char(n) != '\n',
{
}

/// Every character of a decimal numeral is a digit, and the numeral reads
/// back as its value.
proof fn lemma_decimal_digits(n: nat)
    ensures
        decimal(n).len() > 0,
        forall|i: int| 0 <= i < decimal(n).len() ==> is_decimal_digit(#[trigger] decimal(n)[i]),
        forall|i: int| 0 <= i < decimal(n).len() ==> !is_space(#[trigger] decimal(n)[i]),
        forall|i: int| 0 <= i < decimal(n).len() ==> #[trigger] decimal(n)[i] != '\n',
        digits_value(decimal(n)) == n,
    decreases n,
{
    if n < 10 {
        lemma_digit_char(n as int);
        assert(decimal(n).drop_last() =~= Seq::<char>::empty());
        assert(digits_value(Seq::<char>::empty()) == 0);
        assert(digits_value(decimal(n)) == digits_value(decimal(n).drop_last()) * 10 + n);
    } else {
        lemma_decimal_digits(n / 10);
        lemma_digit_char((n % 10) as int);
        let d = decimal(n);
        assert(d.drop_last() =~= decimal(n / 10));
        assert(d.last() == digit_char((n % 10) as int));
        assert(forall|i: int| 0 <= i < d.len() - 1 ==> d[i] == decimal(n / 10)[i]);
        assert(digits_value(d) == digits_value(decimal(n / 10)) * 10 + (n % 10));
        assert((n / 10) * 10 + n % 10 == n) by (nonlinear_arith);
    }
}

proof fn lemma_u64_text_decimal(n: u64)
    ensures
        u64_text(decimal(n as nat)) == Some(n),
{
    lemma_decimal_digits(n as nat);
    let d = decimal(n as nat);
    assert(is_decimal_digit(d[0]));
    assert(unsigned_digits(d) == d);
}

pub(crate) proof fn lemma_hex_of_shape(s: Seq<u8>)
    ensures
        hex_of(s).len() == 2 * s.len(),
        forall|i: int| 0 <= i < s.len() ==> hex_of(s)[2 * i] == hex_char(#[trigger] s[i] as int / 16),
        forall|i: int| 0 <= i < s.len() ==> hex_of(s)[2 * i + 1] == hex_char(#[trigger] s[i] as int % 16),
    decreases s.len(),
{
    if s.len() > 0 {
        lemma_hex_of_shape(s.drop_last());
        assert forall|i: int| 0 <= i < s.len() implies hex_of(s)[2 * i] == hex_char(#[trigger] s[i] as int / 16) by {
            if i < s.len() - 1 {
                assert(s.drop_last()[i] == s[i]);
            }
        }
        assert forall|i: int| 0 <= i < s.len() implies hex_of(s)[2 * i + 1] == hex_char(#[trigger] s[i] as int % 16) by {
            if i < s.len() - 1 {
                assert(s.drop_last()[i] == s[i]);
            }
        }
    }
}

proof fn lemma_hex_of_chars(s: Seq<u8>)
    ensures
        forall|k: int| 0 <= k < hex_of(s).len() ==> is_hex_char(#[trigger] hex_of(s)[k]),
        forall|k: int| 0 <= k < hex_of(s).len() ==> !is_space(#[trigger] hex_of(s)[k]),
        forall|k: int| 0 <= k < hex_of(s).len() ==> #[trigger] hex_of(s)[k] != '\n',
{
    lemma_hex_of_shape(s);
    assert forall|k: int| 0 <= k < hex_of(s).len() implies is_hex_char(#[trigger] hex_of(s)[k]) && !is_space(hex_of(s)[k]) && hex_of(s)[k] != '\n' by {
        let i = k / 2;
        assert(0 <= i < s.len());
        if k % 2 == 0 {
            assert(k == 2 * i);
            lemma_hex_char(s[i] as int / 16);
        } else {
            assert(k == 2 * i + 1);
            lemma_hex_char(s[i] as int % 16);
        }
    }
}

pub(crate) proof fn lemma_hash_text_hex(s: Seq<u8>)
    requires
        s.len() == 32,
    ensures
        hash_text(hex_of(s)) == Some(s),
{
    lemma_hex_of_shape(s);
    lemma_hex_of_chars(s);
    let h = hex_of(s);
    let digits = h.map_values(|c: char| (c as u32) as u8);
    assert forall|i: int| 0 <= i < 32 implies #[trigger] decode_hex(digits)[i] == s[i] by {
        lemma_hex_char(s[i] as int / 16);
        lemma_hex_char(s[i] as int % 16);
        assert(digits[2 * i] == (h[2 * i] as u32) as u8);
        assert(digits[2 * i + 1] == (h[2 * i + 1] as u32) as u8);
    }
    assert(decode_hex(digits) =~= s);
}

proof fn lemma_words_single(w: Seq<char>)
    requires
        w.len() > 0,
        forall|i: int| 0 <= i < w.len() ==> !is_space(#[trigger] w[i]),
    ensures
        words(w) == seq![w],
    decreases w.len(),
{
    if w.len() == 1 {
        assert(w.drop_last() =~= Seq::<char>::empty());
        assert(words(Seq::<char>::empty()) == Seq::<Seq<char>>::empty());
        assert(seq![w[0]] =~= w);
    } else {
        lemma_words_single(w.drop_last());
        assert(w[w.len() - 2] == w.drop_last().last());
        assert(w.drop_last().push(w.last()) =~= w);
        assert(seq![w.drop_last()].drop_last().push(w.drop_last().push(w.last())) =~= seq![w]);
    }
}

/// A space followed by a word adds that word to a line's words.
proof fn lemma_words_append(s: Seq<char>, w: Seq<char>)
    requires
        w.len() > 0,
        forall|i: int| 0 <= i < w.len() ==> !is_space(#[trigger] w[i]),
    ensures
        words(s + seq![' '] + w) == words(s).push(w),
    decreases w.len(),
{
    let x = s + seq![' '];
    assert(words(x) == words(s)) by {
        assert(x.drop_last() =~= s);
        assert(is_space(x.last()));
    }
    if w.len() == 1 {
        let y = x + w;
        assert(y.drop_last() =~= x);
        assert(y[y.len() - 2] == ' ');
        assert(y.last() == w[0]);
        assert(seq![w[0]] =~= w);
    } else {
        lemma_words_append(s, w.drop_last());
        let y = x + w;
        assert(y.drop_last() =~= x + w.drop_last());
        assert(y[y.len() - 2] == w[w.len() - 2]);
        assert(y.last() == w.last());
        assert(w.drop_last().push(w.last()) =~= w);
        assert(words(s).push(w.drop_last()).drop_last().push(w.drop_last().push(w.last()))
            =~= words(s).push(w));
    }
}

/// Characters with no `'\n'` among them extend the last line.
proof fn lemma_lines_append(x: Seq<char>, l: Seq<char>)
    requires
        forall|i: int| 0 <= i < l.len() ==> #[trigger] l[i] != '\n',
    ensures
        lines(x + l) == lines(x).drop_last().push(lines(x).last() + l),
    decreases l.len(),
{
    lemma_lines_nonempty(x);
    if l.len() == 0 {
        assert(x + l =~= x);
        assert(lines(x).last() + l =~= lines(x).last());
        assert(lines(x).drop_last().push(lines(x).last()) =~= lines(x));
    } else {
        lemma_lines_append(x, l.drop_last());
        let y = x + l;
        assert(y.drop_last() =~= x + l.drop_last());
        assert(y.last() == l.last());
        assert((lines(x).last() + l.drop_last()).push(l.last()) =~= lines(x).last() + l);
        assert(lines(x).drop_last().push(lines(x).last() + l.drop_last()).drop_last().push(
            (lines(x).last() + l.drop_last()).push(l.last()),
        ) =~= lines(x).drop_last().push(lines(x).last() + l));
    }
}

/// An index line without its newline.
pub open spec fn line_body(r: IndexView) -> Seq<char> {
    decimal(r.1 as nat) + seq![' '] + hex_of(r.0) + seq![' '] + decimal(r.2 as nat)
}

pub open spec fn line_bodies(s: Seq<IndexView>) -> Seq<Seq<char>> {
    s.map_values(|r: IndexView| line_body(r))
}

proof fn lemma_line_body(r: IndexView)
    requires
        r.0.len() == 32,
    ensures
        index_line(r) == line_body(r).push('\n'),
        forall|i: int| 0 <= i < line_body(r).len() ==> #[trigger] line_body(r)[i] != '\n',
        row_of_words(words(line_body(r))) == Some(Some(r)),
{
    let d1 = decimal(r.1 as nat);
    let h = hex_of(r.0);
    let d2 = decimal(r.2 as nat);
    lemma_decimal_digits(r.1 as nat);
    lemma_decimal_digits(r.2 as nat);
    lemma_hex_of_chars(r.0);
    lemma_hex_of_shape(r.0);
    lemma_u64_text_decimal(r.1);
    lemma_u64_text_decimal(r.2);
    lemma_hash_text_hex(r.0);
    let b = line_body(r);
    assert(index_line(r) =~= b.push('\n'));
    assert forall|i: int| 0 <= i < b.len() implies #[trigger] b[i] != '\n' by {
        if i < d1.len() {
            assert(b[i] == d1[i]);
        } else if i == d1.len() {
        } else if i < d1.len() + 1 + h.len() {
            assert(b[i] == h[i - d1.len() - 1]);
        } else if i == d1.len() + 1 + h.len() {
        } else {
            assert(b[i] == d2[i - d1.len() - 2 - h.len()]);
        }
    }
    lemma_words_single(d1);
    lemma_words_append(d1, h);
    lemma_words_append(d1 + seq![' '] + h, d2);
    assert(words(b) == seq![d1, h, d2]);
}

#[verifier::spinoff_prover]
proof fn lemma_lines_of_text(s: Seq<IndexView>)
    requires
        forall|i: int| 0 <= i < s.len() ==> (#[trigger] s[i]).0.len() == 32,
    ensures
        lines(index_text_of(s)) == line_bodies(s).push(Seq::empty()),
    decreases s.len(),
{
    if s.len() == 0 {
        assert(line_bodies(s).push(Seq::empty()) =~= seq![Seq::<char>::empty()]);
    } else {
        lemma_lines_of_text(s.drop_last());
        let x = index_text_of(s.drop_last());
        let r = s.last();
        let b = line_body(r);
        lemma_line_body(r);
        lemma_lines_append(x, b);
        assert(line_bodies(s.drop_last()).push(Seq::empty()).drop_last() =~= line_bodies(
            s.drop_last(),
        ));
        assert(Seq::<char>::empty() + b =~= b);
        let y = x + b;
        assert(index_text_of(s) =~= y.push('\n'));
        assert(y.push('\n').drop_last() =~= y);
        assert(line_bodies(s) =~= line_bodies(s.drop_last()).push(b));
    }
}

proof fn lemma_rows_of_bodies(s: Seq<IndexView>)
    requires
        forall|i: int| 0 <= i < s.len() ==> (#[trigger] s[i]).0.len() == 32,
    ensures
        rows_of_lines(line_bodies(s)) == Some(s),
    decreases s.len(),
{
    if s.len() == 0 {
        assert(line_bodies(s) =~= Seq::<Seq<char>>::empty());
    } else {
        lemma_rows_of_bodies(s.drop_last());
        lemma_line_body(s.last());
        assert(line_bodies(s).drop_last() =~= line_bodies(s.drop_last()));
        assert(s.drop_last().push(s.last()) =~= s);
    }
}

/// Reading back the index text written for some rows gives exactly those
/// rows, in order.
pub proof fn law_index_text_round_trip(s: Seq<IndexView>)
    requires
        forall|i: int| 0 <= i < s.len() ==> (#[trigger] s[i]).0.len() == 32,
    ensures
        index_rows(index_text_of(s)) == Some(s),
{
    lemma_lines_of_text(s);
    lemma_rows_of_bodies(s);
    let ls = line_bodies(s).push(Seq::<char>::empty());
    assert(ls.drop_last() =~= line_bodies(s));
    assert(words(Seq::<char>::empty()) == Seq::<Seq<char>>::empty());
}

/// Persisting an index and opening a cache from the text written gives back
/// the same index: the rows read back are the rows written, in order, and
/// the id-to-(tick, size) map they open to is the map of the index.
pub proof fn law_flush_then_open(s: Seq<IndexView>)
    requires
        keys_sorted(s),
        forall|i: int| 0 <= i < s.len() ==> (#[trigger] s[i]).0.len() == 32,
    ensures
        index_rows(index_text_of(s)) == Some(s),
        rows_map(s) == as_map(s),
{
    law_index_text_round_trip(s);
    lemma_sorted_distinct(s);
    lemma_rows_map_distinct(s);
}

} // verus!
