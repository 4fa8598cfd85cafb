//! The executable escape decoder for single-line values, proved to return
//! exactly what [`unescape_bytes`] describes.

use crate::model::{code_utf8, hex4_val, hex_val, unescape_bytes, unescape_prepend};
use vstd::prelude::*;
use vstd::slice::slice_index_get;

verus! {

/// The numeric value of one hexadecimal digit, case-insensitive.
fn hex_digit(b: u8) -> (r: Option<u8>)
    ensures
        r == hex_val(b),
{
    if 0x30 <= b && b <= 0x39 {
        Some(b - 0x30)
    } else if 0x61 <= b && b <= 0x66 {
        Some(b - 0x61 + 10)
    } else if 0x41 <= b && b <= 0x46 {
        Some(b - 0x41 + 10)
    } else {
        None
    }
}

/// Appends the one to three UTF-8 layout bytes of a decoded `\u` code
/// unit.
fn push_code_utf8(out: &mut Vec<u8>, code: u16)
    ensures
        final(out)@ == old(out)@ + code_utf8(code),
{
    if code < 0x80 {
        out.push(code as u8);
    } else if code < 0x800 {
        out.push((((code >> 6) & 0x1f) as u8) | 0xc0);
        out.push(((code & 0x3f) as u8) | 0x80);
    } else {
        out.push((((code >> 12) & 0x0f) as u8) | 0xe0);
        out.push((((code >> 6) & 0x3f) as u8) | 0x80);
        out.push(((code & 0x3f) as u8) | 0x80);
    }
    proof {
        assert(out@ =~= old(out)@ + code_utf8(code));
    }
}

/// Decodes the backslash escapes of a raw single-line value, or reports
/// that an escape is unrecognized or truncated.
#[verifier::rlimit(60)]
pub fn unescape(v: &[u8]) -> (r: Option<Vec<u8>>)
    ensures
        match r {
            Some(out) => unescape_bytes(v@) == Some(out@),
            None => unescape_bytes(v@) is None,
        },
{
    let n = v.len();
    let mut out: Vec<u8> = Vec::new();
    let mut i: usize = 0;
    proof {
        assert(v@.skip(0) =~= v@);
        if let Some(t) = unescape_bytes(v@) {
            assert(out@ + t =~= t);
        }
    }
    while i < n
        invariant
            n == v@.len(),
            0 <= i <= n,
            unescape_bytes(v@) == unescape_prepend(out@, unescape_bytes(v@.skip(i as int))),
        decreases n - i,
    {
        let ghost s = v@.skip(i as int);
        proof {
            assert(s.len() == n - i);
            assert(s[0] == v@[i as int]);
            if s.len() >= 2 {
                assert(s[1] == v@[i as int + 1]);
            }
        }
        let b = *slice_index_get(v, i);
        if b != 0x5c {
            let ghost before = out@;
            out.push(b);
            proof {
                assert(s.drop_first() =~= v@.skip(i as int + 1));
                if let Some(t) = unescape_bytes(v@.skip(i as int + 1)) {
                    assert(before + (seq![b] + t) =~= out@ + t);
                }
            }
            i += 1;
        } else {
            if i + 1 >= n {
                proof {
                    assert(unescape_bytes(s) is None);
                }
                return None;
            }
            let e = *slice_index_get(v, i + 1);
            if e == 0x72 || e == 0x6e || e == 0x74 || e == 0x5c {
                let decoded: u8 = if e == 0x72 {
                    0x0d
                } else if e == 0x6e {
                    0x0a
                } else if e == 0x74 {
                    0x09
                } else {
                    0x5c
                };
                let ghost before = out@;
                out.push(decoded);
                proof {
                    assert(s.skip(2) =~= v@.skip(i as int + 2));
                    if let Some(t) = unescape_bytes(v@.skip(i as int + 2)) {
                        assert(before + (seq![decoded] + t) =~= out@ + t);
                    }
                }
                i += 2;
            } else if e == 0x75 {
                if n - i < 6 {
                    proof {
                        assert(unescape_bytes(s) is None);
                    }
                    return None;
                }
                proof {
                    assert(s[2] == v@[i as int + 2]);
                    assert(s[3] == v@[i as int + 3]);
                    assert(s[4] == v@[i as int + 4]);
                    assert(s[5] == v@[i as int + 5]);
                }
                let h0 = hex_digit(*slice_index_get(v, i + 2));
                let h1 = hex_digit(*slice_index_get(v, i + 3));
                let h2 = hex_digit(*slice_index_get(v, i + 4));
                let h3 = hex_digit(*slice_index_get(v, i + 5));
                match (h0, h1, h2, h3) {
                    (Some(d0), Some(d1), Some(d2), Some(d3)) => {
                        proof {
                            assert(d0 <= 15 && d1 <= 15 && d2 <= 15 && d3 <= 15);
                        }
                        let code: u16 = (d0 as u16) * 0x1000 + (d1 as u16) * 0x100 + (d2 as u16)
                            * 0x10 + (d3 as u16);
                        let ghost before = out@;
                        push_code_utf8(&mut out, code);
                        proof {
                            assert(hex4_val(v@[i + 2], v@[i + 3], v@[i + 4], v@[i + 5]) == Some(
                                code,
                            ));
                            assert(s.skip(6) =~= v@.skip(i as int + 6));
                            if let Some(t) = unescape_bytes(v@.skip(i as int + 6)) {
                                assert(before + (code_utf8(code) + t) =~= out@ + t);
                            }
                        }
                        i += 6;
                    },
                    _ => {
                        proof {
                            assert(hex4_val(v@[i + 2], v@[i + 3], v@[i + 4], v@[i + 5]) is None);
                            assert(unescape_bytes(s) is None);
                        }
                        return None;
                    },
                }
            } else {
                proof {
                    assert(unescape_bytes(s) is None);
                }
                return None;
            }
        }
    }
    proof {
        assert(v@.skip(n as int).len() == 0);
        assert(unescape_bytes(v@.skip(n as int)) == Some(Seq::<u8>::empty()));
        assert(out@ + Seq::<u8>::empty() =~= out@);
    }
    Some(out)
}

} // verus!
