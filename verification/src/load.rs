//! The executable parser: a single forward pass over the byte buffer,
//! proved to return exactly what [`parse_bytes`] describes.

use crate::escape::unescape;
use crate::model::{
    ends_odd_backslash, lemma_find2_characterize, lemma_trailing_count, line_split,
    parse_bytes, parse_rest, strip_comment, trim_chars, ErrorModel, PairModel,
};
use crate::strutil::trim_str;
use crate::{pairs_view, Error, Properties};
use vstd::prelude::*;
use vstd::slice::{slice_index_get, slice_subrange};
use vstd::string::StringExecFns;
use vstd::utf8::{decode_utf8, valid_utf8};

verus! {

/// Relies on memchr::memchr2: the result is the index of the first
/// occurrence of either needle byte in the haystack, or absent when
/// neither byte occurs; a returned index is less than the haystack's
/// length.
pub assume_specification[ memchr::memchr2 ](
    needle1: u8,
    needle2: u8,
    haystack: &[u8],
) -> (r: Option<usize>)
    ensures
        match r {
            Some(i) => i < haystack@.len() && (haystack@[i as int] == needle1
                || haystack@[i as int] == needle2) && (forall|j: int|
                0 <= j < i ==> haystack@[j] != needle1 && haystack@[j] != needle2),
            None => forall|j: int|
                0 <= j < haystack@.len() ==> haystack@[j] != needle1 && haystack@[j] != needle2,
        },
;

/// Relies on std::str::from_utf8: it returns Ok exactly when the bytes are
/// valid UTF-8, and the returned string slice views those bytes.
#[verifier::external_body]
fn bytes_to_str(b: &[u8]) -> (r: Option<&str>)
    ensures
        r is Some <==> valid_utf8(b@),
        r matches Some(s) ==> s@ == decode_utf8(b@),
{
    std::str::from_utf8(b).ok()
}

/// The start of the final run of backslash bytes.
fn trailing_run_start(line: &[u8]) -> (r: usize)
    ensures
        r <= line@.len(),
        forall|k: int| r <= k < line@.len() ==> line@[k] == 0x5c,
        r > 0 ==> line@[r - 1] != 0x5c,
{
    let n = line.len();
    let mut j: usize = n;
    while j > 0
        invariant
            n == line@.len(),
            0 <= j <= n,
            forall|k: int| j <= k < n ==> line@[k] == 0x5c,
        decreases j,
    {
        if *slice_index_get(line, j - 1) != 0x5c {
            return j;
        }
        j -= 1;
    }
    0
}

/// Whether the line ends in an odd number of backslashes, which keeps a
/// continuation open.
pub fn odd_backslash(line: &[u8]) -> (r: bool)
    ensures
        r == ends_odd_backslash(line@),
{
    let start = trailing_run_start(line);
    proof {
        lemma_trailing_count(line@, start as int);
    }
    (line.len() - start) % 2 == 1
}

/// The model image of the in-flight continuation.
spec fn pending_view(p: Option<(String, String)>) -> Option<PairModel> {
    match p {
        Some(kv) => Some((kv.0@, kv.1@)),
        None => None,
    }
}

impl Properties {
    /// Parses properties text: one pair per logical line, with `#`/`!`
    /// comments stripped, `=`/`:` separating key from value, whitespace
    /// trimmed around both, values continued across physical lines by a
    /// trailing backslash, and backslash escapes decoded in single-line
    /// values.  The first offense aborts the whole load.  A continuation
    /// still pending when the buffer ends is dropped.
    pub fn load(content: &[u8]) -> (r: Result<Properties, Error>)
        ensures
            match r {
                Ok(p) => parse_bytes(content@) == Ok::<Seq<PairModel>, ErrorModel>(p@),
                Err(e) => parse_bytes(content@) == Err::<Seq<PairModel>, ErrorModel>(e@),
            },
    {
        let n = content.len();
        let mut pairs: Vec<(String, String)> = Vec::new();
        let mut pending: Option<(String, String)> = None;
        let mut line: usize = 0;
        let mut pos: usize = 0;
        proof {
            assert(content@.skip(0) =~= content@);
            assert(pairs_view(pairs@) =~= Seq::<PairModel>::empty());
        }
        while pos < n
            invariant
                n == content@.len(),
                0 <= pos <= n,
                line <= pos,
                parse_rest(
                    content@.skip(pos as int),
                    line as nat,
                    pending_view(pending),
                    pairs_view(pairs@),
                ) == parse_bytes(content@),
            decreases n - pos,
        {
            let ghost s = content@.skip(pos as int);
            let ghost entry_line = line as nat;
            let ghost entry_pending = pending_view(pending);
            let ghost entry_acc = pairs_view(pairs@);
            let rest = slice_subrange(content, pos, n);
            proof {
                assert(rest@ =~= s);
            }
            let term = memchr::memchr2(0x0a, 0x0d, rest);
            let line_end: usize;
            let next_pos: usize;
            match term {
                Some(i) => {
                    proof {
                        lemma_find2_characterize(s, 0x0a, 0x0d, Some(i as int));
                    }
                    line_end = pos + i;
                    next_pos = pos + i + 1;
                },
                None => {
                    proof {
                        lemma_find2_characterize(s, 0x0a, 0x0d, None);
                    }
                    line_end = n;
                    next_pos = n;
                },
            }
            let raw = slice_subrange(content, pos, line_end);
            let ghost tail = content@.skip(next_pos as int);
            proof {
                assert(raw@ =~= line_split(s).0);
                assert(tail =~= line_split(s).1);
            }
            line += 1;
            let com = memchr::memchr2(0x23, 0x21, raw);
            let cur: &[u8];
            match com {
                Some(ci) => {
                    proof {
                        lemma_find2_characterize(raw@, 0x23, 0x21, Some(ci as int));
                    }
                    cur = slice_subrange(raw, 0, ci);
                    proof {
                        assert(cur@ =~= strip_comment(raw@));
                    }
                },
                None => {
                    proof {
                        lemma_find2_characterize(raw@, 0x23, 0x21, None);
                    }
                    cur = raw;
                },
            }
            proof {
                assert(cur@ == strip_comment(line_split(s).0));
            }
            match pending {
                Some((key, value)) => {
                    let ghost kv = (key@, value@);
                    if odd_backslash(cur) {
                        proof {
                            if cur@.len() == 0 {
                                assert(crate::model::trailing_backslashes(cur@) == 0);
                            }
                        }
                        let seg = slice_subrange(cur, 0, cur.len() - 1);
                        proof {
                            assert(seg@ =~= cur@.drop_last());
                        }
                        match bytes_to_str(seg) {
                            None => {
                                proof {
                                    assert(parse_rest(s, entry_line, entry_pending, entry_acc)
                                        == Err::<Seq<PairModel>, ErrorModel>(
                                        ErrorModel::InvalidUtf8(line as nat),
                                    ));
                                }
                                return Err(Error::InvalidUtf8(line));
                            },
                            Some(st) => {
                                let t = trim_str(st);
                                let mut value2 = value;
                                value2.append(t.as_str());
                                pending = Some((key, value2));
                                proof {
                                    assert(pending_view(pending) == Some(
                                        (kv.0, kv.1 + trim_chars(decode_utf8(cur@.drop_last()))),
                                    ));
                                    assert(parse_rest(s, entry_line, entry_pending, entry_acc)
                                        == parse_rest(
                                        tail,
                                        line as nat,
                                        pending_view(pending),
                                        entry_acc,
                                    ));
                                }
                            },
                        }
                    } else {
                        match bytes_to_str(cur) {
                            None => {
                                proof {
                                    assert(parse_rest(s, entry_line, entry_pending, entry_acc)
                                        == Err::<Seq<PairModel>, ErrorModel>(
                                        ErrorModel::InvalidUtf8(line as nat),
                                    ));
                                }
                                return Err(Error::InvalidUtf8(line));
                            },
                            Some(st) => {
                                let t = trim_str(st);
                                let mut value2 = value;
                                value2.append(t.as_str());
                                let ghost done = (kv.0, kv.1 + trim_chars(decode_utf8(cur@)));
                                pairs.push((key, value2));
                                pending = None;
                                proof {
                                    assert(pairs_view(pairs@) =~= entry_acc.push(done));
                                    assert(parse_rest(s, entry_line, entry_pending, entry_acc)
                                        == parse_rest(
                                        tail,
                                        line as nat,
                                        pending_view(pending),
                                        pairs_view(pairs@),
                                    ));
                                }
                            },
                        }
                    }
                },
                None => {
                    pending = None;
                    if cur.len() == 0 {
                        proof {
                            assert(parse_rest(s, entry_line, entry_pending, entry_acc)
                                == parse_rest(tail, line as nat, pending_view(pending), entry_acc));
                        }
                    } else {
                        let delim = memchr::memchr2(0x3d, 0x3a, cur);
                        match delim {
                            None => {
                                proof {
                                    lemma_find2_characterize(cur@, 0x3d, 0x3a, None);
                                }
                                match bytes_to_str(cur) {
                                    None => {
                                        proof {
                                            assert(parse_rest(
                                                s,
                                                entry_line,
                                                entry_pending,
                                                entry_acc,
                                            ) == Err::<Seq<PairModel>, ErrorModel>(
                                                ErrorModel::InvalidUtf8(line as nat),
                                            ));
                                        }
                                        return Err(Error::InvalidUtf8(line));
                                    },
                                    Some(st) => {
                                        let text = st.to_owned();
                                        proof {
                                            assert(parse_rest(
                                                s,
                                                entry_line,
                                                entry_pending,
                                                entry_acc,
                                            ) == Err::<Seq<PairModel>, ErrorModel>(
                                                ErrorModel::MalformedLine(line as nat, text@),
                                            ));
                                        }
                                        return Err(Error::MalformedLine(line, text));
                                    },
                                }
                            },
                            Some(di) => {
                                proof {
                                    lemma_find2_characterize(cur@, 0x3d, 0x3a, Some(di as int));
                                }
                                let keyb = slice_subrange(cur, 0, di);
                                let valb = slice_subrange(cur, di + 1, cur.len());
                                proof {
                                    assert(keyb@ =~= cur@.take(di as int));
                                    assert(valb@ =~= cur@.skip(di as int + 1));
                                }
                                match bytes_to_str(keyb) {
                                    None => {
                                        proof {
                                            assert(parse_rest(
                                                s,
                                                entry_line,
                                                entry_pending,
                                                entry_acc,
                                            ) == Err::<Seq<PairModel>, ErrorModel>(
                                                ErrorModel::InvalidUtf8(line as nat),
                                            ));
                                        }
                                        return Err(Error::InvalidUtf8(line));
                                    },
                                    Some(kst) => {
                                        let key = trim_str(kst);
                                        if odd_backslash(valb) {
                                            proof {
                                                if valb@.len() == 0 {
                                                    assert(crate::model::trailing_backslashes(
                                                        valb@,
                                                    ) == 0);
                                                }
                                            }
                                            let vseg = slice_subrange(valb, 0, valb.len() - 1);
                                            proof {
                                                assert(vseg@ =~= valb@.drop_last());
                                            }
                                            match bytes_to_str(vseg) {
                                                None => {
                                                    proof {
                                                        assert(parse_rest(
                                                            s,
                                                            entry_line,
                                                            entry_pending,
                                                            entry_acc,
                                                        ) == Err::<Seq<PairModel>, ErrorModel>(
                                                            ErrorModel::InvalidUtf8(line as nat),
                                                        ));
                                                    }
                                                    return Err(Error::InvalidUtf8(line));
                                                },
                                                Some(vst) => {
                                                    let part = trim_str(vst);
                                                    pending = Some((key, part));
                                                    proof {
                                                        assert(parse_rest(
                                                            s,
                                                            entry_line,
                                                            entry_pending,
                                                            entry_acc,
                                                        ) == parse_rest(
                                                            tail,
                                                            line as nat,
                                                            pending_view(pending),
                                                            entry_acc,
                                                        ));
                                                    }
                                                },
                                            }
                                        } else {
                                            match unescape(valb) {
                                                None => {
                                                    match bytes_to_str(cur) {
                                                        None => {
                                                            proof {
                                                                assert(parse_rest(
                                                                    s,
                                                                    entry_line,
                                                                    entry_pending,
                                                                    entry_acc,
                                                                ) == Err::<
                                                                    Seq<PairModel>,
                                                                    ErrorModel,
                                                                >(
                                                                    ErrorModel::InvalidUtf8(
                                                                        line as nat,
                                                                    ),
                                                                ));
                                                            }
                                                            return Err(Error::InvalidUtf8(line));
                                                        },
                                                        Some(st) => {
                                                            let text = st.to_owned();
                                                            proof {
                                                                assert(parse_rest(
                                                                    s,
                                                                    entry_line,
                                                                    entry_pending,
                                                                    entry_acc,
                                                                ) == Err::<
                                                                    Seq<PairModel>,
                                                                    ErrorModel,
                                                                >(
                                                                    ErrorModel::InvalidEscape(
                                                                        line as nat,
                                                                        text@,
                                                                    ),
                                                                ));
                                                            }
                                                            return Err(Error::InvalidEscape(
                                                                line,
                                                                text,
                                                            ));
                                                        },
                                                    }
                                                },
                                                Some(decv) => {
                                                    match bytes_to_str(decv.as_slice()) {
                                                        None => {
                                                            proof {
                                                                assert(parse_rest(
                                                                    s,
                                                                    entry_line,
                                                                    entry_pending,
                                                                    entry_acc,
                                                                ) == Err::<
                                                                    Seq<PairModel>,
                                                                    ErrorModel,
                                                                >(
                                                                    ErrorModel::InvalidUtf8(
                                                                        line as nat,
                                                                    ),
                                                                ));
                                                            }
                                                            return Err(Error::InvalidUtf8(line));
                                                        },
                                                        Some(vst) => {
                                                            let val = trim_str(vst);
                                                            let ghost done = (
                                                                key@,
                                                                val@,
                                                            );
                                                            pairs.push((key, val));
                                                            proof {
                                                                assert(pairs_view(pairs@)
                                                                    =~= entry_acc.push(done));
                                                                assert(parse_rest(
                                                                    s,
                                                                    entry_line,
                                                                    entry_pending,
                                                                    entry_acc,
                                                                ) == parse_rest(
                                                                    tail,
                                                                    line as nat,
                                                                    pending_view(pending),
                                                                    pairs_view(pairs@),
                                                                ));
                                                            }
                                                        },
                                                    }
                                                },
                                            }
                                        }
                                    },
                                }
                            },
                        }
                    }
                },
            }
            pos = next_pos;
        }
        proof {
            assert(content@.skip(n as int).len() == 0);
        }
        Ok(Properties::from_pairs(pairs))
    }
}

} // verus!
