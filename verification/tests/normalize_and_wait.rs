use kitty_test_harness::normalize::{clean_trailing_whitespace, split_tokens, strip_escape_codes, TokenKind};
use kitty_test_harness::wait::{poll_decision, PollOutcome, WaitTimeout};

#[test]
fn tokenize_is_lossless() {
    let line = "ab\x1b[31mred\x1b[0m  \x1b[m";
    let toks = split_tokens(line);
    let rebuilt: String = toks.iter().map(|t| t.raw.as_str()).collect::<Vec<_>>().join("");
    assert_eq!(rebuilt, line);
    assert_eq!(toks[0].kind, TokenKind::Text);
    assert_eq!(toks[1].kind, TokenKind::Escape);
    assert_eq!(toks[1].raw, "\x1b[31m");
}

#[test]
fn strip_removes_escapes_only() {
    assert_eq!(strip_escape_codes("a\x1b[31mb\x1b[mc"), "abc");
    assert_eq!(strip_escape_codes("plain"), "plain");
    assert_eq!(strip_escape_codes(""), "");
}

#[test]
fn clean_keeps_styling_before_content() {
    // escape tokens before (and interleaved with) real content survive;
    // trailing blank text and trailing escapes are dropped
    let raw = "\x1b[31mhello\x1b[0m   \x1b[2J";
    assert_eq!(clean_trailing_whitespace(raw), "\x1b[31mhello");
}

#[test]
fn clean_drops_blank_trailing_lines() {
    let raw = "one\ntwo\n   \n\x1b[2J\n";
    assert_eq!(clean_trailing_whitespace(raw), "one\ntwo");
}

#[test]
fn clean_keeps_interior_blank_lines() {
    let raw = "one\n\ntwo\n\n\n";
    assert_eq!(clean_trailing_whitespace(raw), "one\n\ntwo");
}

#[test]
fn clean_is_idempotent_on_ordinary_text() {
    let raw = "a  \x1b[31m \nmiddle\x1b[0m\n  \n";
    let once = clean_trailing_whitespace(raw);
    let twice = clean_trailing_whitespace(&once);
    assert_eq!(once, twice);
}

#[test]
fn clean_empty_input() {
    assert_eq!(clean_trailing_whitespace(""), "");
    assert_eq!(clean_trailing_whitespace("   \n\t\n"), "");
}

#[test]
fn poll_decision_cases() {
    // a satisfied predicate returns at once, whatever the clock says
    assert_eq!(poll_decision(true, 0, 100), PollOutcome::Satisfied);
    assert_eq!(poll_decision(true, 100_000, 100), PollOutcome::Satisfied);
    // unsatisfied within the budget: sleep and retry
    assert_eq!(poll_decision(false, 100, 100), PollOutcome::Poll);
    // strictly over the budget: give up
    assert_eq!(poll_decision(false, 101, 100), PollOutcome::TimedOut);
}

#[test]
fn wait_timeout_carries_diagnostics() {
    let t = WaitTimeout::new(250, 200, "last raw".into(), Some("last clean".into()));
    assert_eq!(t.elapsed_ms, 250);
    assert_eq!(t.timeout_ms, 200);
    assert!(t.elapsed_ms >= t.timeout_ms);
    assert_eq!(t.last_raw, "last raw");
    assert_eq!(t.last_clean.as_deref(), Some("last clean"));
}
