//! The round-trip law: loading the serialized text of a store yields the
//! same ordered pairs, for stores whose text needs no escaping on output.

use crate::model::{
    dump_chars, ends_odd_backslash, is_space_char, lemma_find2_characterize,
    lemma_trailing_count, line_split, pair_line, parse_bytes, parse_rest, strip_comment,
    trailing_backslashes, trim_back, trim_chars, trim_front, unescape_bytes, ErrorModel, PairModel,
};
use vstd::prelude::*;
use vstd::utf8::{
    char_is_scalar, decode_utf8, encode_scalar, encode_utf8, encode_utf8_decode_utf8,
    encode_utf8_valid_utf8, has_width_1_encoding, has_width_2_encoding, has_width_3_encoding,
};

verus! {

/// A character that serialization writes and the parser reads back without
/// harm on any line: no line break, comment mark or backslash.
pub open spec fn plain_char(c: char) -> bool {
    let u = c as u32;
    u != 0x0a && u != 0x0d && u != 0x23 && u != 0x21 && u != 0x5c
}

/// A key that reparses as itself: plain characters only, none of them a
/// separator, and no whitespace at either edge.
pub open spec fn plain_key(k: Seq<char>) -> bool {
    (forall|i: int|
        0 <= i < k.len() ==> plain_char(k[i]) && k[i] as u32 != 0x3d && k[i] as u32 != 0x3a) && (
    k.len() > 0 ==> !is_space_char(k[0]) && !is_space_char(k.last()))
}

/// A value that reparses as itself: plain characters only and no whitespace
/// at either edge.
pub open spec fn plain_value(v: Seq<char>) -> bool {
    (forall|i: int| 0 <= i < v.len() ==> plain_char(v[i])) && (v.len() > 0 ==> !is_space_char(v[0])
        && !is_space_char(v.last()))
}

/// The pairs on which serialized output reparses exactly.
pub open spec fn round_trippable(pairs: Seq<PairModel>) -> bool {
    forall|i: int| 0 <= i < pairs.len() ==> plain_key(pairs[i].0) && plain_value(pairs[i].1)
}

/// Encoding distributes over concatenation.
proof fn lemma_encode_concat(a: Seq<char>, b: Seq<char>)
    ensures
        encode_utf8(a + b) == encode_utf8(a) + encode_utf8(b),
    decreases a.len(),
{
    if a.len() == 0 {
        assert(a + b =~= b);
        assert(encode_utf8(a) =~= Seq::<u8>::empty());
        assert(Seq::<u8>::empty() + encode_utf8(b) =~= encode_utf8(b));
    } else {
        assert((a + b)[0] == a[0]);
        assert((a + b).len() > 0);
        assert((a + b).drop_first() =~= a.drop_first() + b);
        lemma_encode_concat(a.drop_first(), b);
        assert(encode_scalar(a[0] as u32) + (encode_utf8(a.drop_first()) + encode_utf8(b)) =~= (
        encode_scalar(a[0] as u32) + encode_utf8(a.drop_first())) + encode_utf8(b));
    }
}

proof fn lemma_or_high(y: u8)
    by (bit_vector)
    ensures
        (0xc0u8 | y) >= 0x80,
        (0x80u8 | y) >= 0x80,
        (0xe0u8 | y) >= 0x80,
        (0xf0u8 | y) >= 0x80,
{
}

/// An ASCII character encodes to the single byte of its own code.
proof fn lemma_encode_scalar_ascii(c: char)
    requires
        (c as u32) < 0x80,
    ensures
        encode_scalar(c as u32) =~= seq![(c as u32) as u8],
{
    let u = c as u32;
    assert(has_width_1_encoding(u));
    assert(u & 0x7f == u) by (bit_vector)
        requires
            u < 0x80,
    ;
}

/// A non-ASCII character encodes to bytes that are all 0x80 or above.
proof fn lemma_encode_scalar_high(c: char)
    requires
        (c as u32) >= 0x80,
    ensures
        forall|i: int|
            0 <= i < encode_scalar(c as u32).len() ==> #[trigger] encode_scalar(c as u32)[i]
                >= 0x80,
{
    char_is_scalar(c);
    let u = c as u32;
    if has_width_2_encoding(u) {
        lemma_or_high((((u >> 6) & 0x1f) as u8));
        lemma_or_high(((u & 0x3f) as u8));
    } else if has_width_3_encoding(u) {
        lemma_or_high((((u >> 12) & 0x0f) as u8));
        lemma_or_high((((u >> 6) & 0x3f) as u8));
        lemma_or_high(((u & 0x3f) as u8));
    } else {
        lemma_or_high((((u >> 18) & 0x7) as u8));
        lemma_or_high((((u >> 12) & 0x3f) as u8));
        lemma_or_high((((u >> 6) & 0x3f) as u8));
        lemma_or_high(((u & 0x3f) as u8));
    }
}

/// An ASCII byte occurs in the encoding only where the character itself
/// occurs in the text.
proof fn lemma_encode_no_byte(s: Seq<char>, b: u8)
    requires
        b < 0x80,
        forall|i: int| 0 <= i < s.len() ==> s[i] as u32 != b as u32,
    ensures
        forall|j: int| 0 <= j < encode_utf8(s).len() ==> encode_utf8(s)[j] != b,
    decreases s.len(),
{
    if s.len() > 0 {
        let head = encode_scalar(s[0] as u32);
        lemma_encode_no_byte(s.drop_first(), b);
        if (s[0] as u32) < 0x80 {
            lemma_encode_scalar_ascii(s[0]);
        } else {
            lemma_encode_scalar_high(s[0]);
        }
        assert(forall|j: int| 0 <= j < head.len() ==> head[j] != b);
        assert(forall|j: int|
            0 <= j < encode_utf8(s).len() ==> encode_utf8(s)[j] == if j < head.len() {
                head[j]
            } else {
                encode_utf8(s.drop_first())[j - head.len()]
            });
    }
}

/// Trimming leaves a sequence with no whitespace at either edge unchanged.
proof fn lemma_trim_id(s: Seq<char>)
    requires
        s.len() > 0 ==> !is_space_char(s[0]) && !is_space_char(s.last()),
    ensures
        trim_chars(s) == s,
{
    assert(trim_front(s) == s);
    assert(trim_back(s) == s);
}

/// Escape decoding leaves bytes without a backslash unchanged.
proof fn lemma_unescape_id(s: Seq<u8>)
    requires
        forall|i: int| 0 <= i < s.len() ==> s[i] != 0x5c,
    ensures
        unescape_bytes(s) == Some(s),
    decreases s.len(),
{
    if s.len() == 0 {
        assert(s =~= Seq::<u8>::empty());
    } else {
        lemma_unescape_id(s.drop_first());
        assert(seq![s[0]] + s.drop_first() =~= s);
    }
}

/// The one-character text of an ASCII character encodes to one byte.
proof fn lemma_encode_single_ascii(c: char)
    requires
        (c as u32) < 0x80,
    ensures
        encode_utf8(seq![c]) =~= seq![(c as u32) as u8],
{
    lemma_encode_scalar_ascii(c);
    assert(seq![c].drop_first() =~= Seq::<char>::empty());
    assert(encode_utf8(Seq::<char>::empty()) =~= Seq::<u8>::empty());
    assert(encode_utf8(seq![c]) == encode_scalar(c as u32) + encode_utf8(seq![c].drop_first()));
    assert(encode_scalar(c as u32) + Seq::<u8>::empty() =~= encode_scalar(c as u32));
}

/// Parsing consumes one serialized pair as one line and emits exactly that
/// pair.
#[verifier::rlimit(100)]
proof fn lemma_parse_one_line(p: PairModel, r: Seq<u8>, line: nat, acc: Seq<PairModel>)
    requires
        plain_key(p.0),
        plain_value(p.1),
    ensures
        parse_rest(encode_utf8(pair_line(p)) + r, line, None, acc) == parse_rest(
            r,
            (line + 1) as nat,
            None,
            acc.push(p),
        ),
{
    let enc_k = encode_utf8(p.0);
    let enc_v = encode_utf8(p.1);
    let lb = enc_k + seq![0x3du8] + enc_v;
    let b = lb + seq![0x0au8] + r;

    // the encoded pair line is key bytes, '=', value bytes, '\n'
    lemma_encode_concat(p.0 + seq!['='], p.1 + seq!['\n']);
    lemma_encode_concat(p.0, seq!['=']);
    lemma_encode_concat(p.1, seq!['\n']);
    lemma_encode_single_ascii('=');
    lemma_encode_single_ascii('\n');
    assert('=' as u32 == 0x3d && '\n' as u32 == 0x0a);
    assert(pair_line(p) =~= (p.0 + seq!['=']) + (p.1 + seq!['\n']));
    assert(encode_utf8(pair_line(p)) + r =~= b);

    // no byte of the line is a terminator, comment mark or backslash, and
    // no byte of the key is a separator
    lemma_encode_no_byte(p.0, 0x0a);
    lemma_encode_no_byte(p.0, 0x0d);
    lemma_encode_no_byte(p.0, 0x23);
    lemma_encode_no_byte(p.0, 0x21);
    lemma_encode_no_byte(p.0, 0x5c);
    lemma_encode_no_byte(p.0, 0x3d);
    lemma_encode_no_byte(p.0, 0x3a);
    lemma_encode_no_byte(p.1, 0x0a);
    lemma_encode_no_byte(p.1, 0x0d);
    lemma_encode_no_byte(p.1, 0x23);
    lemma_encode_no_byte(p.1, 0x21);
    lemma_encode_no_byte(p.1, 0x5c);
    assert forall|j: int|
        0 <= j < lb.len() implies lb[j] != 0x0a && lb[j] != 0x0d && lb[j] != 0x23 && lb[j] != 0x21
        && lb[j] != 0x5c by {
        if j < enc_k.len() {
            assert(lb[j] == enc_k[j]);
        } else if j == enc_k.len() {
            assert(lb[j] == 0x3d);
        } else {
            assert(lb[j] == enc_v[j - enc_k.len() - 1]);
        }
    }

    // the line splits at the '\n' byte that closes it
    assert(b[lb.len() as int] == 0x0a);
    assert(forall|j: int| 0 <= j < lb.len() ==> b[j] == lb[j]);
    lemma_find2_characterize(b, 0x0a, 0x0d, Some(lb.len() as int));
    assert(b.take(lb.len() as int) =~= lb);
    assert(b.skip(lb.len() as int + 1) =~= r);
    assert(line_split(b) == (lb, r));

    // no comment mark, so the line survives stripping whole
    lemma_find2_characterize(lb, 0x23, 0x21, None);
    assert(strip_comment(lb) == lb);

    // the separator is the '=' the serializer wrote
    assert(lb[enc_k.len() as int] == 0x3d);
    assert forall|j: int| 0 <= j < enc_k.len() implies lb[j] != 0x3d && lb[j] != 0x3a by {
        assert(lb[j] == enc_k[j]);
    }
    lemma_find2_characterize(lb, 0x3d, 0x3a, Some(enc_k.len() as int));
    assert(lb.take(enc_k.len() as int) =~= enc_k);
    assert(lb.skip(enc_k.len() as int + 1) =~= enc_v);

    // the key decodes and trims to itself
    encode_utf8_valid_utf8(p.0);
    encode_utf8_decode_utf8(p.0);
    lemma_trim_id(p.0);

    // the value has an even (zero) backslash tail, decodes through the
    // escape decoder unchanged, and trims to itself
    lemma_trailing_count(enc_v, enc_v.len() as int);
    assert(trailing_backslashes(enc_v) == 0);
    assert(!ends_odd_backslash(enc_v));
    lemma_unescape_id(enc_v);
    encode_utf8_valid_utf8(p.1);
    encode_utf8_decode_utf8(p.1);
    lemma_trim_id(p.1);

    assert(b.len() > 0);
    assert((trim_chars(decode_utf8(enc_k)), trim_chars(decode_utf8(enc_v))) == p);
    assert(parse_rest(b, line, None, acc) == parse_rest(r, (line + 1) as nat, None, acc.push(p)));
}

/// Parsing the serialization of well-behaved pairs appends exactly those
/// pairs, whatever was accumulated before.
proof fn lemma_load_after_dump_rec(pairs: Seq<PairModel>, line: nat, acc: Seq<PairModel>)
    requires
        round_trippable(pairs),
    ensures
        parse_rest(encode_utf8(dump_chars(pairs)), line, None, acc) == Ok::<
            Seq<PairModel>,
            ErrorModel,
        >(acc + pairs),
    decreases pairs.len(),
{
    if pairs.len() == 0 {
        assert(dump_chars(pairs) =~= Seq::<char>::empty());
        assert(encode_utf8(Seq::<char>::empty()) =~= Seq::<u8>::empty());
        assert(acc + pairs =~= acc);
    } else {
        let p = pairs[0];
        assert(plain_key(p.0) && plain_value(p.1));
        assert(dump_chars(pairs) == pair_line(p) + dump_chars(pairs.drop_first()));
        lemma_encode_concat(pair_line(p), dump_chars(pairs.drop_first()));
        lemma_parse_one_line(p, encode_utf8(dump_chars(pairs.drop_first())), line, acc);
        assert(round_trippable(pairs.drop_first())) by {
            assert(forall|i: int|
                0 <= i < pairs.drop_first().len() ==> pairs.drop_first()[i] == pairs[i + 1]);
        }
        lemma_load_after_dump_rec(pairs.drop_first(), (line + 1) as nat, acc.push(p));
        assert(acc.push(p) + pairs.drop_first() =~= acc + pairs);
    }
}

/// Serialization followed by a fresh load yields an equal ordered pair
/// sequence, for every store whose keys and values hold no line breaks,
/// comment marks, backslashes or edge whitespace, and whose keys hold no
/// separators: the characters that output escaping would have to protect.
pub proof fn lemma_dump_load_round_trip(pairs: Seq<PairModel>)
    requires
        round_trippable(pairs),
    ensures
        parse_bytes(encode_utf8(dump_chars(pairs))) == Ok::<Seq<PairModel>, ErrorModel>(pairs),
{
    lemma_load_after_dump_rec(pairs, 0, Seq::empty());
    assert(Seq::<PairModel>::empty() + pairs =~= pairs);
}

} // verus!
