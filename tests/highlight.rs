use ansi_highlight::highlight::{highlight_ansi_insensitive, highlight_with_spans, PatternError};
use ansi_highlight::splice::{locate_escapes, splice, strip_escapes, EscapeToken};

const INVERT: &str = "\x1b[0;7m";
const NORMAL: &str = "\x1b[27m";
// generic escape code
const ESC: &str = "\x1b[34m";
const NONE: &str = "\x1b[0m";

fn hl(orig: &str, pattern: &str) -> String {
    highlight_ansi_insensitive(orig, pattern).unwrap()
}

#[test]
fn no_match() {
    let orig = "no match";
    let res = hl(orig, "test");
    assert_eq!(res, orig.to_string());
}

#[test]
fn single_match_no_esc() {
    let res = hl("this is a test", " a ");
    assert_eq!(res, format!("this is{} a {}test", INVERT, NORMAL));
}

#[test]
fn multi_match_no_esc() {
    let res = hl("test another test", "test");
    assert_eq!(res, format!("{i}test{n} another {i}test{n}", i = INVERT, n = NORMAL));
}

#[test]
fn esc_outside_match() {
    let res = hl(&format!("{}color{} and test", ESC, NONE), "test");
    assert_eq!(res, format!("{}color{} and {}test{}", ESC, NONE, INVERT, NORMAL));
}

#[test]
fn esc_end_in_match() {
    let orig = format!("this {}is a te{}st", ESC, NONE);
    let res = hl(&orig, "test");
    assert_eq!(res, format!("this {}is a {}test{}", ESC, INVERT, NORMAL));
}

#[test]
fn esc_start_in_match() {
    let orig = format!("this is a te{}st again{}", ESC, NONE);
    let res = hl(&orig, "test");
    assert_eq!(res, format!("this is a {}test{} again{}", INVERT, NORMAL, NONE));
}

#[test]
fn esc_around_match() {
    let orig = format!("this is {}a test again{}", ESC, NONE);
    let res = hl(&orig, "test");
    assert_eq!(res, format!("this is {}a {}test{} again{}", ESC, INVERT, NORMAL, NONE));
}

#[test]
fn esc_within_match() {
    let orig = format!("this is a t{}es{}t again", ESC, NONE);
    let res = hl(&orig, "test");
    assert_eq!(res, format!("this is a {}test{} again", INVERT, NORMAL));
}

#[test]
fn multi_escape_match() {
    let orig = format!("this {e}is a te{n}st again {e}yeah{n} test", e = ESC, n = NONE);
    let res = hl(&orig, "test");
    assert_eq!(
        res,
        format!(
            "this {e}is a {i}test{n} again {e}yeah{nn} {i}test{n}",
            e = ESC,
            i = INVERT,
            n = NORMAL,
            nn = NONE
        )
    );
}

#[test]
fn invalid_pattern_is_rejected() {
    assert_eq!(highlight_ansi_insensitive("some text", "(unclosed"), Err(PatternError::Invalid));
    assert_eq!(highlight_ansi_insensitive("some text", "[z-a]"), Err(PatternError::Invalid));
}

#[test]
fn empty_text_is_returned_unchanged() {
    assert_eq!(hl("", "test"), "");
}

#[test]
fn escapes_only_no_match_keeps_bytes() {
    let orig = format!("{}{}{}", ESC, NONE, ESC);
    assert_eq!(hl(&orig, "x"), orig);
}

#[test]
fn pattern_sees_through_escapes() {
    let orig = format!("ab{}cd", ESC);
    let res = hl(&orig, "bc");
    assert_eq!(res, format!("a{}bc{}d", INVERT, NORMAL));
}

#[test]
fn escape_at_match_end_follows_normal_marker() {
    let orig = format!("test{}x", ESC);
    let res = hl(&orig, "test");
    assert_eq!(res, format!("{}test{}{}x", INVERT, NORMAL, ESC));
}

#[test]
fn escape_at_end_of_text_is_kept() {
    let orig = format!("a test{}", NONE);
    let res = hl(&orig, "test");
    assert_eq!(res, format!("a {}test{}{}", INVERT, NORMAL, NONE));
}

#[test]
fn adjacent_escapes_keep_their_order() {
    let orig = format!("x{}{} test", ESC, NONE);
    let res = hl(&orig, "test");
    assert_eq!(res, format!("x{}{} {}test{}", ESC, NONE, INVERT, NORMAL));
}

#[test]
fn adjacent_matches_get_their_own_markers() {
    let res = hl("abab", "ab");
    assert_eq!(res, format!("{i}ab{n}{i}ab{n}", i = INVERT, n = NORMAL));
}

#[test]
fn regex_pattern_matches() {
    let res = hl("a1 b22 c", "[0-9]+");
    assert_eq!(res, format!("a{i}1{n} b{i}22{n} c", i = INVERT, n = NORMAL));
}

#[test]
fn csi_introducer_is_an_escape() {
    let orig = "ab\u{9b}[1mcd";
    let res = hl(orig, "bc");
    assert_eq!(res, format!("a{}bc{}d", INVERT, NORMAL));
}

#[test]
fn multibyte_text_is_kept() {
    let orig = format!("é{}ü test ß", ESC);
    let res = hl(&orig, "test");
    assert_eq!(res, format!("é{}ü {}test{} ß", ESC, INVERT, NORMAL));
}

#[test]
fn visible_text_survives_highlighting() {
    let orig = format!("one {e}two{n} three {e}two{n}", e = ESC, n = NONE);
    let res = hl(&orig, "two|thr");
    let strip = |s: &str| {
        s.replace(ESC, "").replace(NONE, "").replace(INVERT, "").replace(NORMAL, "")
    };
    assert_eq!(strip(&res), strip(&orig));
}

#[test]
fn strip_escapes_removes_spans() {
    let text = b"ab\x1b[1mcd\x1b[0me";
    let spans = vec![(2usize, 6usize), (8usize, 12usize)];
    assert_eq!(strip_escapes(text, &spans), b"abcde".to_vec());
}

#[test]
fn locate_escapes_positions_in_visible_text() {
    let text = b"ab\x1b[1mcd\x1b[0me";
    let spans = vec![(2usize, 6usize), (8usize, 12usize)];
    let toks = locate_escapes(text, &spans);
    assert_eq!(toks.len(), 2);
    assert_eq!(toks[0].position, 2);
    assert_eq!(toks[0].literal, b"\x1b[1m".to_vec());
    assert_eq!(toks[1].position, 4);
    assert_eq!(toks[1].literal, b"\x1b[0m".to_vec());
}

#[test]
fn splice_drops_tokens_inside_highlight() {
    let v = b"abcd";
    let m = vec![(1usize, 3usize)];
    let toks = vec![
        EscapeToken { position: 0, literal: b"X".to_vec() },
        EscapeToken { position: 1, literal: b"Y".to_vec() },
        EscapeToken { position: 2, literal: b"Z".to_vec() },
        EscapeToken { position: 3, literal: b"W".to_vec() },
        EscapeToken { position: 4, literal: b"V".to_vec() },
    ];
    let out = splice(v, &m, &toks);
    assert_eq!(out, b"Xa\x1b[0;7mbc\x1b[27mWdV".to_vec());
}

#[test]
fn highlight_with_spans_no_match_returns_text() {
    let text = b"a\x1b[1mb";
    let esc = vec![(1usize, 5usize)];
    assert_eq!(highlight_with_spans(text, &esc, &vec![]), text.to_vec());
}

#[test]
fn highlight_with_spans_marks_match() {
    let text = b"a\x1b[1mbc";
    let esc = vec![(1usize, 5usize)];
    let m = vec![(2usize, 3usize)];
    assert_eq!(highlight_with_spans(text, &esc, &m), b"a\x1b[1mb\x1b[0;7mc\x1b[27m".to_vec());
}

#[test]
fn mark_matches_wraps_each_match() {
    let v = b"a test and test";
    let m = vec![(2usize, 6usize), (11usize, 15usize)];
    let out = ansi_highlight::splice::mark_matches(v, &m);
    assert_eq!(out, format!("a {i}test{n} and {i}test{n}", i = INVERT, n = NORMAL).into_bytes());
}

#[test]
fn mark_matches_zero_width_match() {
    let v = b"ab";
    let m = vec![(1usize, 1usize)];
    let out = ansi_highlight::splice::mark_matches(v, &m);
    assert_eq!(out, format!("a{}{}b", INVERT, NORMAL).into_bytes());
}

#[test]
fn root_reexport_highlights() {
    let res = ansi_highlight::highlight_ansi_insensitive("x test", "test").unwrap();
    assert_eq!(res, format!("x {}test{}", INVERT, NORMAL));
}
