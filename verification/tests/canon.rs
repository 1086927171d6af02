use frankish::harness::canon::{canonicalize, render_i64};

#[test]
fn crlf_and_cr_normalize_to_lf() {
    assert_eq!(canonicalize("a\r\nb\rc"), "a\nb\nc\n");
}

#[test]
fn trailing_newline_added_exactly_once() {
    assert_eq!(canonicalize("42"), "42\n");
    assert_eq!(canonicalize("42\n"), "42\n");
}

#[test]
fn empty_stays_empty() {
    assert_eq!(canonicalize(""), "");
}

#[test]
fn extra_trailing_newlines_are_preserved() {
    assert_eq!(canonicalize("x\n\n"), "x\n\n");
}

#[test]
fn canonicalize_is_idempotent() {
    for sample in ["", "a", "a\r\nb\r", "x\n\n", "-9\n", "\r\n"] {
        let once = canonicalize(sample);
        assert_eq!(canonicalize(&once), once, "sample {sample:?}");
    }
}

#[test]
fn render_i64_is_decimal_with_one_lf() {
    assert_eq!(render_i64(42), "42\n");
    assert_eq!(render_i64(0), "0\n");
    assert_eq!(render_i64(-7), "-7\n");
    assert_eq!(render_i64(i64::MIN), "-9223372036854775808\n");
}

#[test]
fn lone_cr_then_crlf_each_become_one_lf() {
    assert_eq!(canonicalize("\r\r\n"), "\n\n");
    assert_eq!(canonicalize("\n\r"), "\n\n");
}

#[test]
fn non_ascii_interior_is_untouched() {
    assert_eq!(canonicalize("é\r\nß"), "é\nß\n");
}

#[test]
fn rendered_results_are_already_canonical() {
    for value in [0i64, 7, -7, 1234567890, i64::MAX, i64::MIN] {
        let rendered = render_i64(value);
        assert_eq!(canonicalize(&rendered), rendered);
    }
    assert_eq!(render_i64(i64::MAX), "9223372036854775807\n");
}

#[test]
fn rendered_results_read_back() {
    for value in [0i64, 7, -7, 10, -100, 1234567890, i64::MAX, i64::MIN] {
        let out = render_i64(value);
        assert!(out.ends_with('\n'));
        let text = &out[..out.len() - 1];
        assert_eq!(text.parse::<i64>().unwrap(), value);
        assert!(value == 0 || !text.trim_start_matches('-').starts_with('0'));
    }
}
