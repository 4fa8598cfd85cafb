//! The mathematical model of the properties text format.
//!
//! Everything here is specification-level: the byte-oriented line discipline
//! (terminators, comments, continuations), escape decoding, whitespace
//! trimming, and the parser itself as a recursive function over the raw
//! byte sequence.  The executable code in the other modules is proved to
//! return exactly what these functions describe.

use vstd::prelude::*;
use vstd::utf8::{decode_utf8, valid_utf8};

verus! {

/// The model of a parse failure: which rule was broken, on which 1-based
/// physical line, and (where the diagnostic carries it) the decoded text of
/// the offending line.
pub enum ErrorModel {
    /// A fresh, non-empty, non-comment line had no `=` or `:` separator.
    MalformedLine(nat, Seq<char>),
    /// A byte slice produced by splitting or decoding was not valid UTF-8.
    InvalidUtf8(nat),
    /// A value held an unrecognized or truncated escape sequence.
    InvalidEscape(nat, Seq<char>),
}

/// Index of the first occurrence of either of two bytes, if any.
pub open spec fn find2(s: Seq<u8>, a: u8, b: u8) -> Option<int>
    decreases s.len(),
{
    if s.len() == 0 {
        None
    } else if s[0] == a || s[0] == b {
        Some(0int)
    } else {
        match find2(s.drop_first(), a, b) {
            Some(i) => Some(i + 1),
            None => None,
        }
    }
}

/// A found index lies inside the sequence and hits one of the two bytes,
/// and nothing before it does.
pub proof fn lemma_find2_bound(s: Seq<u8>, a: u8, b: u8)
    ensures
        match find2(s, a, b) {
            Some(i) => 0 <= i < s.len() && (s[i] == a || s[i] == b) && (forall|j: int|
                0 <= j < i ==> s[j] != a && s[j] != b),
            None => forall|j: int| 0 <= j < s.len() ==> s[j] != a && s[j] != b,
        },
    decreases s.len(),
{
    if s.len() == 0 {
    } else if s[0] == a || s[0] == b {
    } else {
        lemma_find2_bound(s.drop_first(), a, b);
        assert(forall|j: int| 1 <= j < s.len() ==> s[j] == s.drop_first()[j - 1]);
    }
}

/// `find2` is pinned down by the first-occurrence property, which is how the
/// executable byte search reports its result.
pub proof fn lemma_find2_characterize(s: Seq<u8>, a: u8, b: u8, r: Option<int>)
    requires
        match r {
            Some(i) => 0 <= i < s.len() && (s[i] == a || s[i] == b) && (forall|j: int|
                0 <= j < i ==> s[j] != a && s[j] != b),
            None => forall|j: int| 0 <= j < s.len() ==> s[j] != a && s[j] != b,
        },
    ensures
        find2(s, a, b) == r,
    decreases s.len(),
{
    if s.len() == 0 {
    } else if s[0] == a || s[0] == b {
        match r {
            Some(i) => {
                assert(i == 0) by {
                    if i > 0 {
                        assert(s[0] != a && s[0] != b);
                    }
                }
            },
            None => {
                assert(s[0] != a && s[0] != b);
            },
        }
    } else {
        assert(forall|j: int| 1 <= j < s.len() ==> s[j] == s.drop_first()[j - 1]);
        match r {
            Some(i) => {
                assert(i != 0);
                lemma_find2_characterize(s.drop_first(), a, b, Some(i - 1));
            },
            None => {
                lemma_find2_characterize(s.drop_first(), a, b, None);
            },
        }
    }
}

/// How many backslash bytes end the line.
pub open spec fn trailing_backslashes(s: Seq<u8>) -> nat
    decreases s.len(),
{
    if s.len() > 0 && s.last() == 0x5cu8 {
        trailing_backslashes(s.drop_last()) + 1
    } else {
        0
    }
}

/// A value ending in an odd number of backslashes continues onto the next
/// physical line.
pub open spec fn ends_odd_backslash(s: Seq<u8>) -> bool {
    trailing_backslashes(s) % 2 == 1
}

/// The trailing backslash count is the length of the final run of
/// backslash bytes, which is how the executable scan finds it.
pub proof fn lemma_trailing_count(s: Seq<u8>, r: int)
    requires
        0 <= r <= s.len(),
        forall|k: int| r <= k < s.len() ==> s[k] == 0x5c,
        r > 0 ==> s[r - 1] != 0x5c,
    ensures
        trailing_backslashes(s) == s.len() - r,
    decreases s.len(),
{
    if s.len() == 0 {
    } else if r == s.len() {
        assert(s.last() != 0x5c);
    } else {
        assert(s.last() == 0x5c);
        let t = s.drop_last();
        lemma_trailing_count(t, r);
    }
}

/// The characters treated as whitespace when keys, values and continuation
/// segments are trimmed: the Unicode white-space set.
pub open spec fn is_space_char(c: char) -> bool {
    let u = c as u32;
    (0x09 <= u && u <= 0x0d) || u == 0x20 || u == 0x85 || u == 0xa0 || u == 0x1680 || (0x2000
        <= u && u <= 0x200a) || u == 0x2028 || u == 0x2029 || u == 0x202f || u == 0x205f || u
        == 0x3000
}

/// The sequence with its leading whitespace removed.
pub open spec fn trim_front(s: Seq<char>) -> Seq<char>
    decreases s.len(),
{
    if s.len() > 0 && is_space_char(s[0]) {
        trim_front(s.drop_first())
    } else {
        s
    }
}

/// The sequence with its trailing whitespace removed.
pub open spec fn trim_back(s: Seq<char>) -> Seq<char>
    decreases s.len(),
{
    if s.len() > 0 && is_space_char(s.last()) {
        trim_back(s.drop_last())
    } else {
        s
    }
}

/// The sequence with both leading and trailing whitespace removed.
pub open spec fn trim_chars(s: Seq<char>) -> Seq<char> {
    trim_back(trim_front(s))
}

/// The numeric value of one hexadecimal digit, case-insensitive.
pub open spec fn hex_val(b: u8) -> Option<u8> {
    if 0x30 <= b && b <= 0x39 {
        Some((b - 0x30) as u8)
    } else if 0x61 <= b && b <= 0x66 {
        Some((b - 0x61 + 10) as u8)
    } else if 0x41 <= b && b <= 0x46 {
        Some((b - 0x41 + 10) as u8)
    } else {
        None
    }
}

/// The 16-bit code unit written as four hexadecimal digits.
pub open spec fn hex4_val(b0: u8, b1: u8, b2: u8, b3: u8) -> Option<u16> {
    if hex_val(b0) is Some && hex_val(b1) is Some && hex_val(b2) is Some && hex_val(b3) is Some {
        Some(
            ((hex_val(b0)->0 as u16) * 0x1000 + (hex_val(b1)->0 as u16) * 0x100 + (hex_val(
                b2,
            )->0 as u16) * 0x10 + (hex_val(b3)->0 as u16)) as u16,
        )
    } else {
        None
    }
}

/// The one to three bytes a decoded `\u` code unit turns into: the standard
/// UTF-8 layout for values up to sixteen bits.  A code unit in the surrogate
/// range still gets the three-byte layout; the bytes are then not valid
/// UTF-8 and the parser reports that when it validates the decoded value.
pub open spec fn code_utf8(code: u16) -> Seq<u8> {
    if code < 0x80 {
        seq![code as u8]
    } else if code < 0x800 {
        seq![(((code >> 6) & 0x1f) as u8) | 0xc0, ((code & 0x3f) as u8) | 0x80]
    } else {
        seq![
            (((code >> 12) & 0x0f) as u8) | 0xe0,
            (((code >> 6) & 0x3f) as u8) | 0x80,
            ((code & 0x3f) as u8) | 0x80,
        ]
    }
}

/// Escape decoding over the raw bytes of a single-line value: plain bytes
/// pass through; `\r`, `\n`, `\t`, `\\` stand for one byte each; `\u` takes
/// exactly four hexadecimal digits and stands for the UTF-8 bytes of that
/// code unit.  Anything else after a backslash, including a truncated `\u`,
/// fails.
pub open spec fn unescape_bytes(s: Seq<u8>) -> Option<Seq<u8>>
    decreases s.len(),
{
    if s.len() == 0 {
        Some(Seq::empty())
    } else if s[0] != 0x5c {
        match unescape_bytes(s.drop_first()) {
            Some(t) => Some(seq![s[0]] + t),
            None => None,
        }
    } else if s.len() >= 2 && s[1] == 0x72 {
        match unescape_bytes(s.skip(2)) {
            Some(t) => Some(seq![0x0du8] + t),
            None => None,
        }
    } else if s.len() >= 2 && s[1] == 0x6e {
        match unescape_bytes(s.skip(2)) {
            Some(t) => Some(seq![0x0au8] + t),
            None => None,
        }
    } else if s.len() >= 2 && s[1] == 0x74 {
        match unescape_bytes(s.skip(2)) {
            Some(t) => Some(seq![0x09u8] + t),
            None => None,
        }
    } else if s.len() >= 2 && s[1] == 0x5c {
        match unescape_bytes(s.skip(2)) {
            Some(t) => Some(seq![0x5cu8] + t),
            None => None,
        }
    } else if s.len() >= 6 && s[1] == 0x75 {
        match hex4_val(s[2], s[3], s[4], s[5]) {
            Some(code) => match unescape_bytes(s.skip(6)) {
                Some(t) => Some(code_utf8(code) + t),
                None => None,
            },
            None => None,
        }
    } else {
        None
    }
}

/// A decoded prefix glued onto the outcome of decoding the rest; `None`
/// stays `None`.
pub open spec fn unescape_prepend(pre: Seq<u8>, r: Option<Seq<u8>>) -> Option<Seq<u8>> {
    match r {
        Some(t) => Some(pre + t),
        None => None,
    }
}

/// The next physical line and what follows it: everything before the first
/// `\n` or `\r` byte, with the terminator consumed; without a terminator the
/// rest of the buffer is the final line.
pub open spec fn line_split(s: Seq<u8>) -> (Seq<u8>, Seq<u8>) {
    match find2(s, 0x0a, 0x0d) {
        Some(i) => (s.take(i), s.skip(i + 1)),
        None => (s, Seq::empty()),
    }
}

/// The line truncated at the first `#` or `!` byte, wherever it stands.
pub open spec fn strip_comment(s: Seq<u8>) -> Seq<u8> {
    match find2(s, 0x23, 0x21) {
        Some(i) => s.take(i),
        None => s,
    }
}

/// One pair as the parser and the container see it: decoded key and value.
pub type PairModel = (Seq<char>, Seq<char>);

/// The parser's main loop, one physical line per step.  `line` counts the
/// lines already consumed, `pending` is the in-flight continuation (key and
/// accumulated value), and `acc` the pairs emitted so far.  A continuation
/// still pending when the buffer ends is dropped.
pub open spec fn parse_rest(
    s: Seq<u8>,
    line: nat,
    pending: Option<PairModel>,
    acc: Seq<PairModel>,
) -> Result<Seq<PairModel>, ErrorModel>
    decreases s.len(),
    via parse_rest_dec
{
    if s.len() == 0 {
        Ok(acc)
    } else {
        let (raw, rest) = line_split(s);
        let ln = (line + 1) as nat;
        let cur = strip_comment(raw);
        match pending {
            Some(kv) => {
                if ends_odd_backslash(cur) {
                    let seg = cur.drop_last();
                    if !valid_utf8(seg) {
                        Err(ErrorModel::InvalidUtf8(ln))
                    } else {
                        parse_rest(
                            rest,
                            ln,
                            Some((kv.0, kv.1 + trim_chars(decode_utf8(seg)))),
                            acc,
                        )
                    }
                } else {
                    if !valid_utf8(cur) {
                        Err(ErrorModel::InvalidUtf8(ln))
                    } else {
                        parse_rest(
                            rest,
                            ln,
                            None,
                            acc.push((kv.0, kv.1 + trim_chars(decode_utf8(cur)))),
                        )
                    }
                }
            },
            None => {
                if cur.len() == 0 {
                    parse_rest(rest, ln, None, acc)
                } else {
                    match find2(cur, 0x3d, 0x3a) {
                        None => if !valid_utf8(cur) {
                            Err(ErrorModel::InvalidUtf8(ln))
                        } else {
                            Err(ErrorModel::MalformedLine(ln, decode_utf8(cur)))
                        },
                        Some(i) => {
                            let keyb = cur.take(i);
                            let valb = cur.skip(i + 1);
                            if !valid_utf8(keyb) {
                                Err(ErrorModel::InvalidUtf8(ln))
                            } else {
                                let key = trim_chars(decode_utf8(keyb));
                                if ends_odd_backslash(valb) {
                                    let vseg = valb.drop_last();
                                    if !valid_utf8(vseg) {
                                        Err(ErrorModel::InvalidUtf8(ln))
                                    } else {
                                        parse_rest(
                                            rest,
                                            ln,
                                            Some((key, trim_chars(decode_utf8(vseg)))),
                                            acc,
                                        )
                                    }
                                } else {
                                    match unescape_bytes(valb) {
                                        None => if !valid_utf8(cur) {
                                            Err(ErrorModel::InvalidUtf8(ln))
                                        } else {
                                            Err(ErrorModel::InvalidEscape(ln, decode_utf8(cur)))
                                        },
                                        Some(dec) => if !valid_utf8(dec) {
                                            Err(ErrorModel::InvalidUtf8(ln))
                                        } else {
                                            parse_rest(
                                                rest,
                                                ln,
                                                None,
                                                acc.push((key, trim_chars(decode_utf8(dec)))),
                                            )
                                        },
                                    }
                                }
                            }
                        },
                    }
                }
            },
        }
    }
}

#[via_fn]
proof fn parse_rest_dec(s: Seq<u8>, line: nat, pending: Option<PairModel>, acc: Seq<PairModel>) {
    if s.len() > 0 {
        lemma_find2_bound(s, 0x0a, 0x0d);
    }
}

/// What loading a buffer yields: the ordered pairs, or the first failure.
pub open spec fn parse_bytes(s: Seq<u8>) -> Result<Seq<PairModel>, ErrorModel> {
    parse_rest(s, 0, None, Seq::empty())
}

/// The value of the first pair whose key matches, if any.
pub open spec fn first_value(pairs: Seq<PairModel>, key: Seq<char>) -> Option<Seq<char>>
    decreases pairs.len(),
{
    if pairs.len() == 0 {
        None
    } else if pairs[0].0 == key {
        Some(pairs[0].1)
    } else {
        first_value(pairs.drop_first(), key)
    }
}

/// The values of every pair whose key matches, in store order.
pub open spec fn values_for(pairs: Seq<PairModel>, key: Seq<char>) -> Seq<Seq<char>>
    decreases pairs.len(),
{
    if pairs.len() == 0 {
        Seq::empty()
    } else {
        (if pairs[0].0 == key {
            seq![pairs[0].1]
        } else {
            Seq::empty()
        }) + values_for(pairs.drop_first(), key)
    }
}

/// The pairs left after deleting a key: every pair whose key differs, in
/// store order.
pub open spec fn kept_pairs(pairs: Seq<PairModel>, key: Seq<char>) -> Seq<PairModel>
    decreases pairs.len(),
{
    if pairs.len() == 0 {
        Seq::empty()
    } else {
        (if pairs[0].0 != key {
            seq![pairs[0]]
        } else {
            Seq::empty()
        }) + kept_pairs(pairs.drop_first(), key)
    }
}

/// Deleting a key removes exactly the matching pairs: what is kept and what
/// matched together account for every pair.
pub proof fn lemma_kept_values_len(pairs: Seq<PairModel>, key: Seq<char>)
    ensures
        kept_pairs(pairs, key).len() + values_for(pairs, key).len() == pairs.len(),
    decreases pairs.len(),
{
    if pairs.len() > 0 {
        lemma_kept_values_len(pairs.drop_first(), key);
    }
}

/// One pair as serialization writes it: `key=value` and a line feed.
pub open spec fn pair_line(p: PairModel) -> Seq<char> {
    p.0 + seq!['='] + p.1 + seq!['\n']
}

/// The serialized text of a whole store, one pair per line, in store order.
pub open spec fn dump_chars(pairs: Seq<PairModel>) -> Seq<char>
    decreases pairs.len(),
{
    if pairs.len() == 0 {
        Seq::empty()
    } else {
        pair_line(pairs[0]) + dump_chars(pairs.drop_first())
    }
}

} // verus!
