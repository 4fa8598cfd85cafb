//! Verified string helpers: whitespace trimming and string equality,
//! both proved against the character-sequence model.

use crate::model::{is_space_char, trim_back, trim_chars, trim_front};
use vstd::prelude::*;
use vstd::slice::slice_index_get;
use vstd::string::StrSliceExecFns;
use vstd::string::StringSliceAdditionalSpecFns;
use vstd::utf8::encode_utf8_decode_utf8;

verus! {

/// Whether the character counts as whitespace for trimming.
pub fn is_space(c: char) -> (r: bool)
    ensures
        r == is_space_char(c),
{
    let u = c as u32;
    (0x09 <= u && u <= 0x0d) || u == 0x20 || u == 0x85 || u == 0xa0 || u == 0x1680 || (0x2000 <= u
        && u <= 0x200a) || u == 0x2028 || u == 0x2029 || u == 0x202f || u == 0x205f || u == 0x3000
}

/// Dropping a fully-whitespace prefix that ends at the first non-space
/// character is exactly `trim_front`.
proof fn lemma_trim_front_skip(s: Seq<char>, i: int)
    requires
        0 <= i <= s.len(),
        forall|k: int| 0 <= k < i ==> is_space_char(s[k]),
        i < s.len() ==> !is_space_char(s[i]),
    ensures
        trim_front(s) == s.skip(i),
    decreases i,
{
    if i == 0 {
        assert(s.skip(0) =~= s);
    } else {
        assert(is_space_char(s[0]));
        let t = s.drop_first();
        assert(forall|k: int| 0 <= k < i - 1 ==> t[k] == s[k + 1]);
        lemma_trim_front_skip(t, i - 1);
        assert(t.skip(i - 1) =~= s.skip(i));
    }
}

/// Dropping a fully-whitespace suffix that starts after the last non-space
/// character is exactly `trim_back`.
proof fn lemma_trim_back_take(s: Seq<char>, m: int)
    requires
        0 <= m <= s.len(),
        forall|k: int| m <= k < s.len() ==> is_space_char(s[k]),
        m > 0 ==> !is_space_char(s[m - 1]),
    ensures
        trim_back(s) == s.take(m),
    decreases s.len() - m,
{
    if m == s.len() {
        if s.len() > 0 {
            assert(!is_space_char(s.last()));
        }
        assert(s.take(m) =~= s);
    } else {
        assert(is_space_char(s.last()));
        let t = s.drop_last();
        lemma_trim_back_take(t, m);
        assert(t.take(m) =~= s.take(m));
    }
}

/// Trimming keeps exactly the characters between the leading and trailing
/// whitespace runs.
proof fn lemma_trim_subrange(s: Seq<char>, i: int, j: int)
    requires
        0 <= i <= j <= s.len(),
        forall|k: int| 0 <= k < i ==> is_space_char(s[k]),
        forall|k: int| j <= k < s.len() ==> is_space_char(s[k]),
        i < j ==> !is_space_char(s[i]) && !is_space_char(s[j - 1]),
        i == j ==> i == s.len(),
    ensures
        trim_chars(s) == s.subrange(i, j),
{
    lemma_trim_front_skip(s, i);
    let t = s.skip(i);
    assert(forall|k: int| 0 <= k < t.len() ==> t[k] == s[k + i]);
    lemma_trim_back_take(t, j - i);
    assert(t.take(j - i) =~= s.subrange(i, j));
}

/// The index of the first non-whitespace character, or the length.
fn first_non_space(s: &str) -> (r: usize)
    ensures
        0 <= r <= s@.len(),
        forall|k: int| 0 <= k < r ==> is_space_char(s@[k]),
        r < s@.len() ==> !is_space_char(s@[r as int]),
{
    let n = s.unicode_len();
    let mut i: usize = 0;
    while i < n
        invariant
            n == s@.len(),
            0 <= i <= n,
            forall|k: int| 0 <= k < i ==> is_space_char(s@[k]),
        decreases n - i,
    {
        if !is_space(s.get_char(i)) {
            return i;
        }
        i += 1;
    }
    n
}

/// The index just past the last non-whitespace character at or after `from`,
/// or `from` when everything after it is whitespace.
fn scan_back(s: &str, from: usize) -> (r: usize)
    requires
        from <= s@.len(),
    ensures
        from <= r <= s@.len(),
        forall|k: int| r <= k < s@.len() ==> is_space_char(s@[k]),
        r > from ==> !is_space_char(s@[r - 1]),
{
    let n = s.unicode_len();
    let mut j: usize = n;
    while j > from
        invariant
            n == s@.len(),
            from <= j <= n,
            forall|k: int| j <= k < n ==> is_space_char(s@[k]),
        decreases j,
    {
        if !is_space(s.get_char(j - 1)) {
            return j;
        }
        j -= 1;
    }
    from
}

/// An owned copy of the string with leading and trailing whitespace removed.
pub fn trim_str(s: &str) -> (r: String)
    ensures
        r@ == trim_chars(s@),
{
    let i = first_non_space(s);
    let j = scan_back(s, i);
    let t = s.substring_char(i, j);
    let r = t.to_owned();
    proof {
        lemma_trim_subrange(s@, i as int, j as int);
    }
    r
}

/// Byte-slice equality, element by element.
fn bytes_eq(a: &[u8], b: &[u8]) -> (r: bool)
    ensures
        r == (a@ == b@),
{
    if a.len() != b.len() {
        proof {
            assert(a@.len() != b@.len());
        }
        return false;
    }
    let n = a.len();
    let mut i: usize = 0;
    while i < n
        invariant
            n == a@.len() && n == b@.len(),
            0 <= i <= n,
            forall|k: int| 0 <= k < i ==> a@[k] == b@[k],
        decreases n - i,
    {
        if *slice_index_get(a, i) != *slice_index_get(b, i) {
            return false;
        }
        i += 1;
    }
    proof {
        assert(a@ =~= b@);
    }
    true
}

/// String equality as equality of the viewed character sequences.  Works on
/// the UTF-8 bytes; the encoding's injectivity carries the result back to
/// the characters.
pub fn str_eq(a: &str, b: &str) -> (r: bool)
    ensures
        r == (a@ == b@),
{
    let ab = a.as_bytes();
    let bb = b.as_bytes();
    let r = bytes_eq(ab, bb);
    proof {
        encode_utf8_decode_utf8(a@);
        encode_utf8_decode_utf8(b@);
    }
    r
}

} // verus!
