use jprops::load::odd_backslash;
use jprops::{Error, Properties};

#[test]
fn test_odd_backslashh() {
    assert!(odd_backslash(b"hello\\"));
    assert!(!odd_backslash(b"hello\\\\"));
    assert!(odd_backslash(b"hello\\\\\\"));
}

#[test]
fn empty_input() {
    let props = Properties::load(b"").unwrap();
    assert_eq!(props.len(), 0);
    assert!(props.is_empty());
}

#[test]
fn crlf_terminators() {
    let props = Properties::load(b"a=b\r\nc=d").unwrap();
    assert_eq!(props.len(), 2);
    assert_eq!(props.get("a"), Some("b"));
    assert_eq!(props.get("c"), Some("d"));
}

#[test]
fn unterminated_continuation_dropped() {
    let props = Properties::load(b"a=b\\").unwrap();
    assert_eq!(props.len(), 0);
}

#[test]
fn comment_in_continuation() {
    let props = Properties::load(b"a=x\\\ny#comment\n").unwrap();
    assert_eq!(props.len(), 1);
    assert_eq!(props.get("a"), Some("xy"));
}

#[test]
fn blank_line_ends_continuation() {
    let props = Properties::load(b"a=x\\\n\nb=c").unwrap();
    assert_eq!(props.len(), 2);
    assert_eq!(props.get("a"), Some("x"));
    assert_eq!(props.get("b"), Some("c"));
}

#[test]
fn even_backslashes_do_not_continue() {
    let props = Properties::load(b"a=b\\\\\nc=d").unwrap();
    assert_eq!(props.len(), 2);
    assert_eq!(props.get("a"), Some("b\\"));
    assert_eq!(props.get("c"), Some("d"));
}

#[test]
fn comment_after_value() {
    let props = Properties::load(b"a=b # trailing").unwrap();
    assert_eq!(props.get("a"), Some("b"));
}

#[test]
fn colon_in_value_kept() {
    let props = Properties::load(b"a=b:c").unwrap();
    assert_eq!(props.get("a"), Some("b:c"));
}

#[test]
fn first_separator_wins() {
    let props = Properties::load(b"a:b=c").unwrap();
    assert_eq!(props.get("a"), Some("b=c"));
}

#[test]
fn empty_key_allowed() {
    let props = Properties::load(b"=v").unwrap();
    assert_eq!(props.len(), 1);
    assert_eq!(props.get(""), Some("v"));
}

#[test]
fn empty_value_allowed() {
    let props = Properties::load(b"k=").unwrap();
    assert_eq!(props.len(), 1);
    assert_eq!(props.get("k"), Some(""));
}

#[test]
fn unicode_two_byte() {
    let props = Properties::load(b"a=\\u00e9x").unwrap();
    assert_eq!(props.get("a"), Some("\u{e9}x"));
}

#[test]
fn unicode_three_byte() {
    let props = Properties::load(b"price=\\u20ac5").unwrap();
    assert_eq!(props.get("price"), Some("\u{20ac}5"));
}

#[test]
fn malformed_line_reports_line_one() {
    let err = Properties::load(b"noseparatorhere").unwrap_err();
    match err {
        Error::MalformedLine(line, text) => {
            assert_eq!(line, 1);
            assert_eq!(text, "noseparatorhere");
        }
        other => panic!("unexpected error {:?}", other),
    }
}

#[test]
fn malformed_line_counts_physical_lines() {
    let err = Properties::load(b"ok=1\nbad").unwrap_err();
    match err {
        Error::MalformedLine(line, text) => {
            assert_eq!(line, 2);
            assert_eq!(text, "bad");
        }
        other => panic!("unexpected error {:?}", other),
    }
}

#[test]
fn unknown_escape_rejected() {
    let err = Properties::load(b"a=b\\x").unwrap_err();
    match err {
        Error::InvalidEscape(line, text) => {
            assert_eq!(line, 1);
            assert_eq!(text, "a=b\\x");
        }
        other => panic!("unexpected error {:?}", other),
    }
}

#[test]
fn truncated_unicode_escape_rejected() {
    let err = Properties::load(b"a=\\u12").unwrap_err();
    assert!(matches!(err, Error::InvalidEscape(1, _)));
}

#[test]
fn bad_hex_digit_rejected() {
    let err = Properties::load(b"a=\\u12g4").unwrap_err();
    assert!(matches!(err, Error::InvalidEscape(1, _)));
}

#[test]
fn invalid_utf8_rejected() {
    let err = Properties::load(b"a=\xff").unwrap_err();
    assert!(matches!(err, Error::InvalidUtf8(1)));
}

#[test]
fn surrogate_escape_makes_invalid_utf8() {
    let err = Properties::load(b"a=\\ud800").unwrap_err();
    assert!(matches!(err, Error::InvalidUtf8(1)));
}

#[test]
fn escapes_decoded_then_trimmed() {
    let props = Properties::load(b"name=x\\ty").unwrap();
    assert_eq!(props.get("name"), Some("x\ty"));
}
