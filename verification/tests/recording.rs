use kitty_test_harness::mouse::{MouseButton, ScrollDirection};
use kitty_test_harness::replay::{parse_recording, ReplayEvent};

#[test]
fn parse_key_batch() {
    let input = "j\nk\nC-x\n";
    let events = parse_recording(input);
    assert_eq!(
        events,
        vec![ReplayEvent::KeyBatch(vec!["j".into(), "k".into(), "C-x".into()])]
    );
}

#[test]
fn parse_batch_boundary() {
    let input = "j\n\nk\n";
    let events = parse_recording(input);
    assert_eq!(
        events,
        vec![
            ReplayEvent::KeyBatch(vec!["j".into()]),
            ReplayEvent::KeyBatch(vec!["k".into()]),
        ]
    );
}

#[test]
fn parse_mouse_events() {
    let input = "mouse:press left 10,5\nmouse:release 10,5\nmouse:scroll up 3,7\n";
    let events = parse_recording(input);
    assert_eq!(
        events,
        vec![
            ReplayEvent::MousePress {
                button: MouseButton::Left,
                col: 10,
                row: 5
            },
            ReplayEvent::MouseRelease { col: 10, row: 5 },
            ReplayEvent::MouseScroll {
                direction: ScrollDirection::Up,
                col: 3,
                row: 7
            },
        ]
    );
}

#[test]
fn parse_paste() {
    let input = "paste:aGVsbG8gd29ybGQ=\n";
    let events = parse_recording(input);
    assert_eq!(events, vec![ReplayEvent::Paste("hello world".into())]);
}

#[test]
fn parse_resize() {
    let input = "resize:120x50\n";
    let events = parse_recording(input);
    assert_eq!(events, vec![ReplayEvent::Resize { cols: 120, rows: 50 }]);
}

#[test]
fn parse_focus() {
    let input = "focus:in\nfocus:out\n";
    let events = parse_recording(input);
    assert_eq!(events, vec![ReplayEvent::FocusIn, ReplayEvent::FocusOut]);
}

#[test]
fn parse_comments_ignored() {
    let input = "# this is a comment\nj\n";
    let events = parse_recording(input);
    assert_eq!(events, vec![ReplayEvent::KeyBatch(vec!["j".into()])]);
}

#[test]
fn non_key_flushes_batch() {
    let input = "j\nk\nfocus:in\nl\n";
    let events = parse_recording(input);
    assert_eq!(
        events,
        vec![
            ReplayEvent::KeyBatch(vec!["j".into(), "k".into()]),
            ReplayEvent::FocusIn,
            ReplayEvent::KeyBatch(vec!["l".into()]),
        ]
    );
}

#[test]
fn parse_empty_recording() {
    assert_eq!(parse_recording(""), vec![]);
    assert_eq!(parse_recording("\n\n# only comments\n\n"), vec![]);
}

#[test]
fn parse_comment_between_keys_keeps_batch() {
    // a comment must not flush the pending batch
    let events = parse_recording("j\n# note\nk\n");
    assert_eq!(
        events,
        vec![ReplayEvent::KeyBatch(vec!["j".into(), "k".into()])]
    );
}

#[test]
fn parse_malformed_mouse_dropped() {
    assert_eq!(parse_recording("mouse:wiggle left 1,2\n"), vec![]);
    assert_eq!(parse_recording("mouse:press left\n"), vec![]);
    assert_eq!(parse_recording("mouse:press purple 1,2\n"), vec![]);
    assert_eq!(parse_recording("mouse:press left 1;2\n"), vec![]);
}

#[test]
fn parse_malformed_resize_dropped() {
    assert_eq!(parse_recording("resize:120\n"), vec![]);
    assert_eq!(parse_recording("resize:ax50\n"), vec![]);
    // out of range for a 16-bit dimension
    assert_eq!(parse_recording("resize:70000x50\n"), vec![]);
}

#[test]
fn parse_bad_paste_dropped() {
    // not base64
    assert_eq!(parse_recording("paste:!!!\n"), vec![]);
    // valid base64 of the bytes ff fe, which are not UTF-8
    assert_eq!(parse_recording("paste://4=\n"), vec![]);
}

#[test]
fn parse_bad_focus_dropped() {
    assert_eq!(parse_recording("focus:sideways\n"), vec![]);
}

#[test]
fn parse_mouse_drag_and_move() {
    let events = parse_recording("mouse:drag right 4,5\nmouse:move 6,7\n");
    assert_eq!(
        events,
        vec![
            ReplayEvent::MouseDrag {
                button: MouseButton::Right,
                col: 4,
                row: 5
            },
            ReplayEvent::MouseMove { col: 6, row: 7 },
        ]
    );
}

#[test]
fn malformed_structured_line_still_flushes() {
    // a mouse line flushes the pending batch even when the line itself
    // is dropped as malformed
    let events = parse_recording("j\nmouse:bad\nk\n");
    assert_eq!(
        events,
        vec![
            ReplayEvent::KeyBatch(vec!["j".into()]),
            ReplayEvent::KeyBatch(vec!["k".into()]),
        ]
    );
}

#[test]
fn whitespace_only_line_is_boundary() {
    let events = parse_recording("j\n   \nk\n");
    assert_eq!(
        events,
        vec![
            ReplayEvent::KeyBatch(vec!["j".into()]),
            ReplayEvent::KeyBatch(vec!["k".into()]),
        ]
    );
}

#[test]
fn parse_keys_trimmed_and_batched_at_end() {
    // surrounding whitespace is trimmed; the last batch is flushed
    let events = parse_recording("  j  \nk");
    assert_eq!(
        events,
        vec![ReplayEvent::KeyBatch(vec!["j".into(), "k".into()])]
    );
}
