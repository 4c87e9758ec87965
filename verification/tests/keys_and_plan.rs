use kitty_test_harness::keys::{
    encode_key_batch, encode_key_name, parse_key_name, KeyEncodeError, KeyName,
};
use kitty_test_harness::mouse::MouseButton;
use kitty_test_harness::replay::{
    parse_recording, plan_replay, ReplayAction, ReplayEvent, ReplayTiming,
};

#[test]
fn encode_simple_char() {
    assert_eq!(encode_key_name("j"), Ok(Some("j".into())));
    assert_eq!(encode_key_name("esc"), Ok(Some("\x1b".into())));
}

#[test]
fn key_name_modifier_prefixes() {
    let k = parse_key_name("C-A-S-x").unwrap();
    assert_eq!(k.key, KeyName::Char('x'));
    assert!(k.ctrl && k.alt && k.shift);
    // duplicated prefixes are idempotent, order does not matter
    let k2 = parse_key_name("A-C-C-x").unwrap();
    assert_eq!(k2.key, KeyName::Char('x'));
    assert!(k2.ctrl && k2.alt && !k2.shift);
}

#[test]
fn key_name_vocabulary() {
    assert_eq!(parse_key_name("enter").unwrap().key, KeyName::Enter);
    assert_eq!(parse_key_name("ret").unwrap().key, KeyName::Enter);
    assert_eq!(parse_key_name("space").unwrap().key, KeyName::Char(' '));
    assert_eq!(parse_key_name("pageup").unwrap().key, KeyName::PageUp);
    assert_eq!(parse_key_name("f5").unwrap().key, KeyName::Function(5));
    assert_eq!(parse_key_name("F12").unwrap().key, KeyName::Function(12));
    assert_eq!(parse_key_name("bs").unwrap().key, KeyName::Backspace);
    assert_eq!(parse_key_name("delete").unwrap().key, KeyName::Delete);
}

#[test]
fn key_name_backtab_implies_shift() {
    let k = parse_key_name("backtab").unwrap();
    assert_eq!(k.key, KeyName::Tab);
    assert!(k.shift);
}

#[test]
fn key_name_unresolved() {
    assert_eq!(parse_key_name("notakey"), None);
    // an unresolved name is skipped silently, not an error
    assert_eq!(encode_key_name("notakey"), Ok(None));
}

#[test]
fn bare_f_is_verbatim_char() {
    // a bare `f`/`F` carries no function-key number: it is the
    // single-character verbatim key
    assert_eq!(parse_key_name("f").unwrap().key, KeyName::Char('f'));
    assert_eq!(parse_key_name("F").unwrap().key, KeyName::Char('F'));
    assert_eq!(encode_key_name("f"), Ok(Some("f".into())));
    assert_eq!(encode_key_name("F"), Ok(Some("F".into())));
}

#[test]
fn f0_is_a_hard_encode_error() {
    // `f0` resolves per the grammar, but the keyboard encoder has no
    // rendering for function key 0: encoding it is a hard error
    let k = parse_key_name("f0").unwrap();
    assert_eq!(k.key, KeyName::Function(0));
    assert_eq!(encode_key_name("f0"), Err(KeyEncodeError { key: k }));
    let batch = vec!["j".to_string(), "f0".to_string()];
    assert_eq!(encode_key_batch(&batch), Err(KeyEncodeError { key: k }));
    let events = parse_recording("j\nf0\n");
    assert_eq!(
        plan_replay(&events, ReplayTiming::batched(0)),
        Err(KeyEncodeError { key: k })
    );
    assert_eq!(
        plan_replay(&events, ReplayTiming::per_key(5)),
        Err(KeyEncodeError { key: k })
    );
}

#[test]
fn high_function_key_is_hard_encode_error() {
    // the keyboard encoder renders f1..=f24 and rejects higher numbers;
    // a rejection of a resolved key is an error, not a silent skip
    let k = parse_key_name("f25").unwrap();
    assert_eq!(k.key, KeyName::Function(25));
    assert_eq!(encode_key_name("f25"), Err(KeyEncodeError { key: k }));
    assert!(matches!(encode_key_name("f24"), Ok(Some(_))));
}

#[test]
fn encode_ctrl_char() {
    // Ctrl+A is ASCII 0x01 under the fixed encoding configuration
    assert_eq!(encode_key_name("C-a"), Ok(Some("\u{1}".into())));
}

#[test]
fn batch_concatenates_in_order() {
    let keys = vec!["j".to_string(), "esc".to_string(), "nosuchkey".to_string(), "k".to_string()];
    assert_eq!(encode_key_batch(&keys), Ok("j\x1bk".to_string()));
}

#[test]
fn plan_batched_single_write() {
    let events = vec![ReplayEvent::KeyBatch(vec!["j".into(), "k".into()])];
    let plan = plan_replay(&events, ReplayTiming::batched(30)).unwrap();
    assert_eq!(
        plan,
        vec![ReplayAction::Write("jk".into()), ReplayAction::Sleep(30)]
    );
}

#[test]
fn plan_per_key_writes_individually() {
    let events = vec![ReplayEvent::KeyBatch(vec!["j".into(), "k".into()])];
    let plan = plan_replay(&events, ReplayTiming::per_key(10)).unwrap();
    assert_eq!(
        plan,
        vec![
            ReplayAction::Write("j".into()),
            ReplayAction::Sleep(10),
            ReplayAction::Write("k".into()),
            ReplayAction::Sleep(10),
            ReplayAction::Sleep(10),
        ]
    );
}

#[test]
fn plan_empty_batch_still_pauses() {
    let events = vec![ReplayEvent::KeyBatch(vec!["nosuchkey".into()])];
    let plan = plan_replay(&events, ReplayTiming::batched(7)).unwrap();
    assert_eq!(plan, vec![ReplayAction::Sleep(7)]);
}

#[test]
fn plan_paste_is_bracketed() {
    let events = vec![ReplayEvent::Paste("hi".into())];
    let plan = plan_replay(&events, ReplayTiming::batched(0)).unwrap();
    assert_eq!(plan, vec![ReplayAction::Write("\x1b[200~hi\x1b[201~".into())]);
}

#[test]
fn plan_focus_and_resize() {
    let events = vec![
        ReplayEvent::FocusIn,
        ReplayEvent::FocusOut,
        ReplayEvent::Resize { cols: 80, rows: 24 },
    ];
    let plan = plan_replay(&events, ReplayTiming::batched(0)).unwrap();
    assert_eq!(
        plan,
        vec![
            ReplayAction::Write("\x1b[I".into()),
            ReplayAction::Write("\x1b[O".into()),
            ReplayAction::Resize { cols: 80, rows: 24 },
        ]
    );
}

#[test]
fn plan_release_uses_left_code() {
    let events = vec![
        ReplayEvent::MousePress { button: MouseButton::Right, col: 1, row: 1 },
        ReplayEvent::MouseRelease { col: 1, row: 1 },
    ];
    let plan = plan_replay(&events, ReplayTiming::batched(0)).unwrap();
    assert_eq!(
        plan,
        vec![
            ReplayAction::Write("\x1b[<2;2;2M".into()),
            ReplayAction::Write("\x1b[<0;2;2m".into()),
        ]
    );
}

#[test]
fn timing_constructors() {
    let b = ReplayTiming::batched(40);
    assert_eq!(b.batch_pause_ms, 40);
    assert_eq!(b.key_delay_ms, 0);
    let p = ReplayTiming::per_key(15);
    assert_eq!(p.batch_pause_ms, 15);
    assert_eq!(p.key_delay_ms, 15);
}
