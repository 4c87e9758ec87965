//! The textual recording format: a line-oriented event stream.
//!
//! A recording is UTF-8 text. Comment lines (first non-blank character
//! `#`) are ignored. Blank lines end the current run of key lines. Lines
//! starting with `mouse:`, `paste:`, `resize:` or `focus:` are structured
//! events; any malformed structured line is dropped silently (the format
//! is produced by a trusted capture tool, so parsing is best-effort).
//! Every other non-blank line is a key name appended to the current batch.
//! Blankness and trimming go by ASCII whitespace.

use vstd::prelude::*;
use base64::Engine;
use crate::keys::encode_key_batch;
use crate::keys::KeyEncodeError;
use crate::keys::encode_key_name;
use crate::keys::spec_batch_payload;
use crate::keys::spec_encode_key_name;
use crate::mouse::button_code;
use crate::mouse::scroll_code;
use crate::mouse::spec_sgr_report;
use crate::mouse::MouseButton;
use crate::mouse::ScrollDirection;
use crate::text::find_char;
use crate::text::first_idx;
use crate::text::lemma_first_idx;
use crate::text::lemma_first_idx_unique;
use crate::text::parse_u32_bounded;
use crate::text::spec_parse_uint;
use crate::text::spec_split_lines;
use crate::text::spec_starts_with;
use crate::text::spec_trim;
use crate::text::split_lines;
use crate::text::starts_with;
use crate::text::str_eq;
use crate::text::trim_str;
use crate::text::views_of;
use vstd::utf8::valid_utf8;
use vstd::utf8::decode_utf8;

verus! {

/// A parsed replay event.
#[derive(Debug, Clone, PartialEq, Eq)]
pub enum ReplayEvent {
    /// A batch of key names transmitted together or one by one.
    KeyBatch(Vec<String>),
    /// Mouse press at a 0-based position.
    MousePress { button: MouseButton, col: u16, row: u16 },
    /// Mouse release at a 0-based position. No button is carried: the SGR
    /// release trailer does not encode the released button distinctly, and
    /// the left code is used when framing the release.
    MouseRelease { col: u16, row: u16 },
    /// Mouse drag (motion with a held button) at a 0-based position.
    MouseDrag { button: MouseButton, col: u16, row: u16 },
    /// Mouse scroll at a 0-based position.
    MouseScroll { direction: ScrollDirection, col: u16, row: u16 },
    /// Mouse motion with no button held.
    MouseMove { col: u16, row: u16 },
    /// Pasted text, already decoded from its base64 payload.
    Paste(String),
    /// Window resize to the given dimensions in cells.
    Resize { cols: u16, rows: u16 },
    /// Focus gained.
    FocusIn,
    /// Focus lost.
    FocusOut,
}

/// The mathematical shape of a replay event, with text as `Seq<char>`.
#[verifier::ext_equal]
pub enum EventModel {
    KeyBatch(Seq<Seq<char>>),
    MousePress { button: MouseButton, col: u16, row: u16 },
    MouseRelease { col: u16, row: u16 },
    MouseDrag { button: MouseButton, col: u16, row: u16 },
    MouseScroll { direction: ScrollDirection, col: u16, row: u16 },
    MouseMove { col: u16, row: u16 },
    Paste(Seq<char>),
    Resize { cols: u16, rows: u16 },
    FocusIn,
    FocusOut,
}

impl View for ReplayEvent {
    type V = EventModel;

    open spec fn view(&self) -> EventModel {
        match self {
            ReplayEvent::KeyBatch(keys) => EventModel::KeyBatch(views_of(keys@)),
            ReplayEvent::MousePress { button, col, row } => EventModel::MousePress {
                button: *button,
                col: *col,
                row: *row,
            },
            ReplayEvent::MouseRelease { col, row } => EventModel::MouseRelease {
                col: *col,
                row: *row,
            },
            ReplayEvent::MouseDrag { button, col, row } => EventModel::MouseDrag {
                button: *button,
                col: *col,
                row: *row,
            },
            ReplayEvent::MouseScroll { direction, col, row } => EventModel::MouseScroll {
                direction: *direction,
                col: *col,
                row: *row,
            },
            ReplayEvent::MouseMove { col, row } => EventModel::MouseMove { col: *col, row: *row },
            ReplayEvent::Paste(s) => EventModel::Paste(s@),
            ReplayEvent::Resize { cols, rows } => EventModel::Resize {
                cols: *cols,
                rows: *rows,
            },
            ReplayEvent::FocusIn => EventModel::FocusIn,
            ReplayEvent::FocusOut => EventModel::FocusOut,
        }
    }
}

/// The views of a sequence of replay events.
pub open spec fn event_views(v: Seq<ReplayEvent>) -> Seq<EventModel> {
    v.map_values(|e: ReplayEvent| e@)
}

/// What base64's standard-alphabet, padded engine decodes a text to:
/// `None` where the input is rejected. The decoded bytes are a function
/// of the input text alone.
pub uninterp spec fn b64_decode_of(s: Seq<char>) -> Option<Seq<u8>>;

/// Relies on base64's `STANDARD` engine `decode`: deterministic over the
/// input text, `Err` exactly where the text is not standard base64.
#[verifier::external_body]
fn base64_decode(s: &str) -> (r: Option<Vec<u8>>)
    ensures
        (match b64_decode_of(s@) {
            Some(b) => r matches Some(v) && v@ == b,
            None => r is None,
        }),
{
    base64::engine::general_purpose::STANDARD.decode(s).ok()
}

/// Relies on String::from_utf8: succeeds exactly on valid UTF-8 and
/// yields the decoding that vstd's UTF-8 model describes.
#[verifier::external_body]
fn utf8_to_string(b: Vec<u8>) -> (r: Option<String>)
    ensures
        (match r {
            Some(t) => valid_utf8(b@) && t@ == decode_utf8(b@),
            None => !valid_utf8(b@),
        }),
{
    String::from_utf8(b).ok()
}

/// The event of a `paste:` line remainder: the payload must be base64
/// whose decoded bytes are valid UTF-8, else the line is dropped.
pub open spec fn spec_paste_event(rest: Seq<char>) -> Option<EventModel> {
    match b64_decode_of(rest) {
        Some(b) => if valid_utf8(b) {
            Some(EventModel::Paste(decode_utf8(b)))
        } else {
            None
        },
        None => None,
    }
}

fn parse_paste(rest: &str) -> (r: Option<ReplayEvent>)
    ensures
        (match r {
            Some(e) => spec_paste_event(rest@) == Some(e@),
            None => spec_paste_event(rest@) is None,
        }),
{
    match base64_decode(rest) {
        Some(bytes) => match utf8_to_string(bytes) {
            Some(content) => Some(ReplayEvent::Paste(content)),
            None => None,
        },
        None => None,
    }
}

/// The event of a `resize:` line remainder: `<cols>x<rows>`, split at the
/// first `x`, both parts unsigned decimal integers.
pub open spec fn spec_resize_event(rest: Seq<char>) -> Option<EventModel> {
    let k = first_idx(rest, 'x');
    if k == rest.len() {
        None
    } else {
        match spec_parse_uint(rest.subrange(0, k), 0xffff) {
            Some(cols) => match spec_parse_uint(rest.subrange(k + 1, rest.len() as int), 0xffff) {
                Some(rows) => Some(
                    EventModel::Resize { cols: cols as u16, rows: rows as u16 },
                ),
                None => None,
            },
            None => None,
        }
    }
}

fn parse_resize(rest: &str) -> (r: Option<ReplayEvent>)
    ensures
        (match r {
            Some(e) => spec_resize_event(rest@) == Some(e@),
            None => spec_resize_event(rest@) is None,
        }),
{
    let n = rest.unicode_len();
    let mut k: usize = 0;
    while k < n && rest.get_char(k) != 'x'
        invariant
            0 <= k <= n,
            n == rest@.len(),
            forall|j: int| 0 <= j < k ==> rest@[j] != 'x',
        decreases n - k,
    {
        k += 1;
    }
    proof {
        lemma_first_idx_unique(rest@, 'x', k as int);
    }
    if k == n {
        return None;
    }
    let cols = match parse_u32_bounded(rest.substring_char(0, k), 0xffff) {
        Some(v) => v as u16,
        None => {
            return None;
        },
    };
    let rows = match parse_u32_bounded(rest.substring_char(k + 1, n), 0xffff) {
        Some(v) => v as u16,
        None => {
            return None;
        },
    };
    Some(ReplayEvent::Resize { cols, rows })
}

/// The first up-to-three space-separated fields of a mouse line remainder,
/// mirroring a split limited to three parts: the third field keeps any
/// further spaces.
pub open spec fn spec_split3(s: Seq<char>) -> Seq<Seq<char>> {
    let i = first_idx(s, ' ');
    if i == s.len() {
        seq![s]
    } else {
        let rest = s.subrange(i + 1, s.len() as int);
        let j = first_idx(rest, ' ');
        if j == rest.len() {
            seq![s.subrange(0, i), rest]
        } else {
            seq![s.subrange(0, i), rest.subrange(0, j), rest.subrange(j + 1, rest.len() as int)]
        }
    }
}

/// The mouse button a field names.
pub open spec fn spec_button(s: Seq<char>) -> Option<MouseButton> {
    if s == "left"@ {
        Some(MouseButton::Left)
    } else if s == "right"@ {
        Some(MouseButton::Right)
    } else if s == "middle"@ {
        Some(MouseButton::Middle)
    } else {
        None
    }
}

/// The scroll direction a field names.
pub open spec fn spec_direction(s: Seq<char>) -> Option<ScrollDirection> {
    if s == "up"@ {
        Some(ScrollDirection::Up)
    } else if s == "down"@ {
        Some(ScrollDirection::Down)
    } else if s == "left"@ {
        Some(ScrollDirection::Left)
    } else if s == "right"@ {
        Some(ScrollDirection::Right)
    } else {
        None
    }
}

/// Coordinates `<col>,<row>` read from a field: anything after a space is
/// ignored, the split is at the first comma, both halves unsigned decimal.
pub open spec fn spec_coords(s: Seq<char>) -> Option<(u16, u16)> {
    let c = s.subrange(0, first_idx(s, ' '));
    let k = first_idx(c, ',');
    if k == c.len() {
        None
    } else {
        match spec_parse_uint(c.subrange(0, k), 0xffff) {
            Some(col) => match spec_parse_uint(c.subrange(k + 1, c.len() as int), 0xffff) {
                Some(row) => Some((col as u16, row as u16)),
                None => None,
            },
            None => None,
        }
    }
}

/// The event of a `mouse:` line remainder, or `None` where the sub-kind
/// is unknown or a field is malformed.
pub open spec fn spec_mouse_event(s: Seq<char>) -> Option<EventModel> {
    let ps = spec_split3(s);
    let kind = ps[0];
    let third = if ps.len() >= 3 {
        ps[2]
    } else {
        Seq::empty()
    };
    if kind == "press"@ {
        if ps.len() < 2 {
            None
        } else {
            match spec_button(ps[1]) {
                Some(button) => match spec_coords(third) {
                    Some((col, row)) => Some(EventModel::MousePress { button, col, row }),
                    None => None,
                },
                None => None,
            }
        }
    } else if kind == "release"@ {
        if ps.len() < 2 {
            None
        } else {
            match spec_coords(ps[1]) {
                Some((col, row)) => Some(EventModel::MouseRelease { col, row }),
                None => None,
            }
        }
    } else if kind == "drag"@ {
        if ps.len() < 2 {
            None
        } else {
            match spec_button(ps[1]) {
                Some(button) => match spec_coords(third) {
                    Some((col, row)) => Some(EventModel::MouseDrag { button, col, row }),
                    None => None,
                },
                None => None,
            }
        }
    } else if kind == "scroll"@ {
        if ps.len() < 2 {
            None
        } else {
            match spec_direction(ps[1]) {
                Some(direction) => match spec_coords(third) {
                    Some((col, row)) => Some(EventModel::MouseScroll { direction, col, row }),
                    None => None,
                },
                None => None,
            }
        }
    } else if kind == "move"@ {
        if ps.len() < 2 {
            None
        } else {
            match spec_coords(ps[1]) {
                Some((col, row)) => Some(EventModel::MouseMove { col, row }),
                None => None,
            }
        }
    } else {
        None
    }
}

fn parse_button(s: &str) -> (r: Option<MouseButton>)
    ensures
        (match r {
            Some(b) => spec_button(s@) == Some(b),
            None => spec_button(s@) is None,
        }),
{
    if str_eq(s, "left") {
        Some(MouseButton::Left)
    } else if str_eq(s, "right") {
        Some(MouseButton::Right)
    } else if str_eq(s, "middle") {
        Some(MouseButton::Middle)
    } else {
        None
    }
}

fn parse_direction(s: &str) -> (r: Option<ScrollDirection>)
    ensures
        (match r {
            Some(d) => spec_direction(s@) == Some(d),
            None => spec_direction(s@) is None,
        }),
{
    if str_eq(s, "up") {
        Some(ScrollDirection::Up)
    } else if str_eq(s, "down") {
        Some(ScrollDirection::Down)
    } else if str_eq(s, "left") {
        Some(ScrollDirection::Left)
    } else if str_eq(s, "right") {
        Some(ScrollDirection::Right)
    } else {
        None
    }
}

fn parse_coords(s: &str) -> (r: Option<(u16, u16)>)
    ensures
        (match r {
            Some(p) => spec_coords(s@) == Some(p),
            None => spec_coords(s@) is None,
        }),
{
    let n = s.unicode_len();
    let i = find_char(s, 0, ' ');
    let c = s.substring_char(0, i);
    proof {
        assert(s@.subrange(0, s@.len() as int) =~= s@);
        assert(c@ =~= s@.subrange(0, first_idx(s@, ' ')));
    }
    let m = c.unicode_len();
    let k = find_char(c, 0, ',');
    proof {
        assert(c@.subrange(0, c@.len() as int) =~= c@);
    }
    if k == m {
        return None;
    }
    let col = match parse_u32_bounded(c.substring_char(0, k), 0xffff) {
        Some(v) => v as u16,
        None => {
            return None;
        },
    };
    let row = match parse_u32_bounded(c.substring_char(k + 1, m), 0xffff) {
        Some(v) => v as u16,
        None => {
            return None;
        },
    };
    Some((col, row))
}

fn parse_mouse(s: &str) -> (r: Option<ReplayEvent>)
    ensures
        (match r {
            Some(e) => spec_mouse_event(s@) == Some(e@),
            None => spec_mouse_event(s@) is None,
        }),
{
    let n = s.unicode_len();
    proof {
        assert(s@.subrange(0, s@.len() as int) =~= s@);
    }
    let i = find_char(s, 0, ' ');
    let kind = s.substring_char(0, i);
    let ghost ps = spec_split3(s@);
    if i == n {
        proof {
            assert(ps =~= seq![s@]);
            assert(kind@ =~= s@);
        }
        // a single field: every sub-kind needs at least a second field
        return None;
    }
    let ghost tail = s@.subrange(i + 1, s@.len() as int);
    let j = find_char(s, i + 1, ' ');
    proof {
        assert(tail =~= s@.subrange(i + 1, s@.len() as int));
        assert forall|k: int| 0 <= k < tail.len() implies tail[k] == s@[i + 1 + k] by {}
        assert(first_idx(tail, ' ') == j - i - 1) by {
            lemma_first_idx(tail, ' ');
        }
    }
    let second = s.substring_char(i + 1, j);
    let third: &str = if j < n {
        s.substring_char(j + 1, n)
    } else {
        ""
    };
    proof {
        assert(kind@ =~= ps[0]);
        assert(second@ =~= ps[1]);
        if j < n {
            assert(ps.len() == 3);
            assert(third@ =~= ps[2]);
        } else {
            assert(ps.len() == 2);
            reveal_strlit("");
            assert(third@ =~= Seq::<char>::empty());
        }
    }
    if str_eq(kind, "press") {
        match parse_button(second) {
            Some(button) => match parse_coords(third) {
                Some((col, row)) => Some(ReplayEvent::MousePress { button, col, row }),
                None => None,
            },
            None => None,
        }
    } else if str_eq(kind, "release") {
        match parse_coords(second) {
            Some((col, row)) => Some(ReplayEvent::MouseRelease { col, row }),
            None => None,
        }
    } else if str_eq(kind, "drag") {
        match parse_button(second) {
            Some(button) => match parse_coords(third) {
                Some((col, row)) => Some(ReplayEvent::MouseDrag { button, col, row }),
                None => None,
            },
            None => None,
        }
    } else if str_eq(kind, "scroll") {
        match parse_direction(second) {
            Some(direction) => match parse_coords(third) {
                Some((col, row)) => Some(ReplayEvent::MouseScroll { direction, col, row }),
                None => None,
            },
            None => None,
        }
    } else if str_eq(kind, "move") {
        match parse_coords(second) {
            Some((col, row)) => Some(ReplayEvent::MouseMove { col, row }),
            None => None,
        }
    } else {
        None
    }
}

/// A pending key batch flushed into the event stream: nothing where the
/// batch is empty, one `KeyBatch` event otherwise.
pub open spec fn spec_flush(batch: Seq<Seq<char>>) -> Seq<EventModel> {
    if batch.len() == 0 {
        Seq::empty()
    } else {
        seq![EventModel::KeyBatch(batch)]
    }
}

/// An optional event as a stream fragment.
pub open spec fn opt_events(o: Option<EventModel>) -> Seq<EventModel> {
    match o {
        Some(e) => seq![e],
        None => Seq::empty(),
    }
}

/// One parser step: how a single line transforms the pending key batch
/// and the emitted event stream.
pub open spec fn spec_step(
    batch: Seq<Seq<char>>,
    out: Seq<EventModel>,
    line: Seq<char>,
) -> (Seq<Seq<char>>, Seq<EventModel>) {
    let t = spec_trim(line);
    if t.len() > 0 && t[0] == '#' {
        (batch, out)
    } else if t.len() == 0 {
        (Seq::<Seq<char>>::empty(), out + spec_flush(batch))
    } else if spec_starts_with(t, "mouse:"@) {
        (
            Seq::<Seq<char>>::empty(),
            out + spec_flush(batch) + opt_events(
                spec_mouse_event(t.subrange("mouse:"@.len() as int, t.len() as int)),
            ),
        )
    } else if spec_starts_with(t, "paste:"@) {
        (
            Seq::<Seq<char>>::empty(),
            out + spec_flush(batch) + opt_events(
                spec_paste_event(t.subrange("paste:"@.len() as int, t.len() as int)),
            ),
        )
    } else if spec_starts_with(t, "resize:"@) {
        (
            Seq::<Seq<char>>::empty(),
            out + spec_flush(batch) + opt_events(
                spec_resize_event(t.subrange("resize:"@.len() as int, t.len() as int)),
            ),
        )
    } else if spec_starts_with(t, "focus:"@) {
        let rest = t.subrange("focus:"@.len() as int, t.len() as int);
        (
            Seq::<Seq<char>>::empty(),
            out + spec_flush(batch) + (if rest == "in"@ {
                seq![EventModel::FocusIn]
            } else if rest == "out"@ {
                seq![EventModel::FocusOut]
            } else {
                Seq::<EventModel>::empty()
            }),
        )
    } else {
        (batch.push(t), out)
    }
}

/// The parser state after a sequence of lines, starting from an empty
/// batch and an empty stream.
pub open spec fn spec_run(lines: Seq<Seq<char>>) -> (Seq<Seq<char>>, Seq<EventModel>)
    decreases lines.len(),
{
    if lines.len() == 0 {
        (Seq::<Seq<char>>::empty(), Seq::<EventModel>::empty())
    } else {
        let p = spec_run(lines.drop_last());
        spec_step(p.0, p.1, lines.last())
    }
}

/// The event stream of a whole recording: every line stepped through the
/// parser, then a final flush of any pending key batch.
pub open spec fn spec_parse_recording(s: Seq<char>) -> Seq<EventModel> {
    let p = spec_run(spec_split_lines(s));
    p.1 + spec_flush(p.0)
}

fn flush_keys(batch: &mut Vec<String>, events: &mut Vec<ReplayEvent>)
    ensures
        final(batch)@.len() == 0,
        event_views(final(events)@) == event_views(old(events)@) + spec_flush(
            views_of(old(batch)@),
        ),
{
    if batch.len() > 0 {
        let mut b: Vec<String> = Vec::new();
        std::mem::swap(&mut b, batch);
        events.push(ReplayEvent::KeyBatch(b));
        proof {
            assert(event_views(events@) =~= event_views(old(events)@) + spec_flush(
                views_of(old(batch)@),
            ));
        }
    } else {
        proof {
            assert(views_of(batch@).len() == 0);
            assert(event_views(events@) =~= event_views(old(events)@) + spec_flush(
                views_of(old(batch)@),
            ));
        }
    }
}

/// Parses a recording into its event stream.
///
/// Consecutive key lines are grouped into `KeyBatch` events; blank lines
/// and structured events flush the pending batch; comments are skipped
/// without flushing; malformed structured lines are dropped silently.
pub fn parse_recording(input: &str) -> (r: Vec<ReplayEvent>)
    ensures
        event_views(r@) == spec_parse_recording(input@),
{
    let lines = split_lines(input);
    let ghost ls = spec_split_lines(input@);
    let mut events: Vec<ReplayEvent> = Vec::new();
    let mut batch: Vec<String> = Vec::new();
    let mut idx: usize = 0;
    proof {
        assert(ls.subrange(0, 0) =~= Seq::<Seq<char>>::empty());
        assert((views_of(batch@), event_views(events@)) == spec_run(ls.subrange(0, 0)));
    }
    while idx < lines.len()
        invariant
            0 <= idx <= lines@.len(),
            views_of(lines@) == ls,
            ls == spec_split_lines(input@),
            (views_of(batch@), event_views(events@)) == spec_run(ls.subrange(0, idx as int)),
        decreases lines@.len() - idx,
    {
        let ghost pre = ls.subrange(0, idx as int);
        let ghost post = ls.subrange(0, idx as int + 1);
        let ghost st = spec_run(pre);
        proof {
            assert(post.drop_last() =~= pre);
            assert(post.last() == ls[idx as int]);
            assert(spec_run(post) == spec_step(st.0, st.1, ls[idx as int]));
            assert(views_of(lines@)[idx as int] == lines@[idx as int]@);
        }
        let t = trim_str(lines[idx].as_str());
        let ghost tv = spec_trim(ls[idx as int]);
        let n = t.unicode_len();
        if n > 0 && t.get_char(0) == '#' {
            // comment: no event, and the pending batch survives
        } else if n == 0 {
            flush_keys(&mut batch, &mut events);
            proof {
                assert(event_views(events@) =~= spec_run(post).1);
            }
        } else if starts_with(t, "mouse:") {
            proof {
                reveal_strlit("mouse:");
            }
            flush_keys(&mut batch, &mut events);
            let ghost flushed = event_views(events@);
            let rest = t.substring_char(6, n);
            proof {
                assert(rest@ =~= tv.subrange("mouse:"@.len() as int, tv.len() as int));
            }
            match parse_mouse(rest) {
                Some(ev) => {
                    events.push(ev);
                    proof {
                        assert(event_views(events@) =~= flushed + opt_events(
                            spec_mouse_event(rest@),
                        ));
                    }
                },
                None => {
                    proof {
                        assert(event_views(events@) =~= flushed + opt_events(
                            spec_mouse_event(rest@),
                        ));
                    }
                },
            }
            proof {
                assert(event_views(events@) =~= spec_run(post).1);
            }
        } else if starts_with(t, "paste:") {
            proof {
                reveal_strlit("paste:");
            }
            flush_keys(&mut batch, &mut events);
            let ghost flushed = event_views(events@);
            let rest = t.substring_char(6, n);
            proof {
                assert(rest@ =~= tv.subrange("paste:"@.len() as int, tv.len() as int));
            }
            match parse_paste(rest) {
                Some(ev) => {
                    events.push(ev);
                    proof {
                        assert(event_views(events@) =~= flushed + opt_events(
                            spec_paste_event(rest@),
                        ));
                    }
                },
                None => {
                    proof {
                        assert(event_views(events@) =~= flushed + opt_events(
                            spec_paste_event(rest@),
                        ));
                    }
                },
            }
            proof {
                assert(event_views(events@) =~= spec_run(post).1);
            }
        } else if starts_with(t, "resize:") {
            proof {
                reveal_strlit("resize:");
            }
            flush_keys(&mut batch, &mut events);
            let ghost flushed = event_views(events@);
            let rest = t.substring_char(7, n);
            proof {
                assert(rest@ =~= tv.subrange("resize:"@.len() as int, tv.len() as int));
            }
            match parse_resize(rest) {
                Some(ev) => {
                    events.push(ev);
                    proof {
                        assert(event_views(events@) =~= flushed + opt_events(
                            spec_resize_event(rest@),
                        ));
                    }
                },
                None => {
                    proof {
                        assert(event_views(events@) =~= flushed + opt_events(
                            spec_resize_event(rest@),
                        ));
                    }
                },
            }
            proof {
                assert(event_views(events@) =~= spec_run(post).1);
            }
        } else if starts_with(t, "focus:") {
            proof {
                reveal_strlit("focus:");
            }
            flush_keys(&mut batch, &mut events);
            let ghost flushed = event_views(events@);
            let rest = t.substring_char(6, n);
            proof {
                assert(rest@ =~= tv.subrange("focus:"@.len() as int, tv.len() as int));
            }
            if str_eq(rest, "in") {
                events.push(ReplayEvent::FocusIn);
                proof {
                    assert(event_views(events@) =~= flushed + seq![EventModel::FocusIn]);
                }
            } else if str_eq(rest, "out") {
                events.push(ReplayEvent::FocusOut);
                proof {
                    assert(event_views(events@) =~= flushed + seq![EventModel::FocusOut]);
                }
            } else {
                proof {
                    assert(event_views(events@) =~= flushed + Seq::<EventModel>::empty());
                }
            }
            proof {
                assert(event_views(events@) =~= spec_run(post).1);
            }
        } else {
            batch.push(String::from_str(t));
            proof {
                assert(views_of(batch@) =~= st.0.push(tv));
            }
        }
        proof {
            assert(views_of(batch@) =~= spec_run(post).0);
            assert(event_views(events@) =~= spec_run(post).1);
        }
        idx += 1;
    }
    proof {
        assert(ls.subrange(0, lines@.len() as int) =~= ls);
    }
    flush_keys(&mut batch, &mut events);
    proof {
        assert(event_views(events@) =~= spec_parse_recording(input@));
    }
    events
}

/// A comment line is inert: it contributes no event and leaves the
/// pending key batch untouched, whatever the parser state.
pub proof fn lemma_comment_line_is_inert(
    batch: Seq<Seq<char>>,
    out: Seq<EventModel>,
    line: Seq<char>,
)
    requires
        spec_trim(line).len() > 0,
        spec_trim(line)[0] == '#',
    ensures
        spec_step(batch, out, line) == (batch, out),
{
}

/// Comments never appear in the output stream and never flush a pending
/// batch: inserting a comment line anywhere in a recording leaves the
/// parse of the whole recording unchanged.
pub proof fn lemma_comment_never_observed(lines: Seq<Seq<char>>, i: int, c: Seq<char>)
    requires
        0 <= i <= lines.len(),
        spec_trim(c).len() > 0,
        spec_trim(c)[0] == '#',
    ensures
        spec_run(lines.insert(i, c)) == spec_run(lines),
    decreases lines.len(),
{
    let ext = lines.insert(i, c);
    if i == lines.len() {
        assert(ext.drop_last() =~= lines);
        assert(ext.last() == c);
        lemma_comment_line_is_inert(spec_run(lines).0, spec_run(lines).1, c);
    } else {
        assert(ext.last() == lines.last());
        assert(ext.drop_last() =~= lines.drop_last().insert(i, c));
        lemma_comment_never_observed(lines.drop_last(), i, c);
    }
}

/// Replay timing configuration: pauses in milliseconds.
#[derive(Debug, Clone, Copy, PartialEq, Eq, Structural)]
pub struct ReplayTiming {
    /// Pause after each batch (batches are separated by blank lines in
    /// the recording).
    pub batch_pause_ms: u64,
    /// Delay between individual keys within a batch. When non-zero, keys
    /// are transmitted one at a time instead of concatenated into a
    /// single write, giving the application time to process each key.
    pub key_delay_ms: u64,
}

impl ReplayTiming {
    /// Batched replay with no per-key delay.
    pub fn batched(batch_pause_ms: u64) -> (r: Self)
        ensures
            r.batch_pause_ms == batch_pause_ms,
            r.key_delay_ms == 0,
    {
        Self { batch_pause_ms, key_delay_ms: 0 }
    }

    /// Per-key replay where each key is sent individually with a delay.
    pub fn per_key(key_delay_ms: u64) -> (r: Self)
        ensures
            r.batch_pause_ms == key_delay_ms,
            r.key_delay_ms == key_delay_ms,
    {
        Self { batch_pause_ms: key_delay_ms, key_delay_ms }
    }
}

/// One step of a replay plan: what the transport layer must do next.
#[derive(Debug, Clone, PartialEq, Eq)]
pub enum ReplayAction {
    /// Write these bytes to the terminal's input channel.
    Write(String),
    /// Pause for this many milliseconds before the next action.
    Sleep(u64),
    /// Resize the window to these dimensions in cells.
    Resize { cols: u16, rows: u16 },
}

/// The mathematical shape of a replay action.
#[verifier::ext_equal]
pub enum ActionModel {
    Write(Seq<char>),
    Sleep(u64),
    Resize { cols: u16, rows: u16 },
}

impl View for ReplayAction {
    type V = ActionModel;

    open spec fn view(&self) -> ActionModel {
        match self {
            ReplayAction::Write(s) => ActionModel::Write(s@),
            ReplayAction::Sleep(ms) => ActionModel::Sleep(*ms),
            ReplayAction::Resize { cols, rows } => ActionModel::Resize {
                cols: *cols,
                rows: *rows,
            },
        }
    }
}

/// The views of a sequence of replay actions.
pub open spec fn action_views(v: Seq<ReplayAction>) -> Seq<ActionModel> {
    v.map_values(|a: ReplayAction| a@)
}

/// Per-key transmission of a batch: each resolvable key written on its
/// own, followed by the configured delay; the first encoder rejection
/// is the batch's error.
pub open spec fn spec_keys_actions(keys: Seq<Seq<char>>, delay_ms: u64) -> Result<
    Seq<ActionModel>,
    KeyEncodeError,
>
    decreases keys.len(),
{
    if keys.len() == 0 {
        Ok(Seq::empty())
    } else {
        match spec_keys_actions(keys.drop_last(), delay_ms) {
            Ok(a) => match spec_encode_key_name(keys.last()) {
                Ok(Some(t)) => Ok(a + seq![ActionModel::Write(t), ActionModel::Sleep(delay_ms)]),
                Ok(None) => Ok(a),
                Err(e) => Err(e),
            },
            Err(e) => Err(e),
        }
    }
}

/// Once a prefix of the batch has erred, per-key transmission of the
/// whole batch is that same error.
pub proof fn lemma_keys_actions_err(keys: Seq<Seq<char>>, delay_ms: u64, m: int)
    requires
        0 <= m <= keys.len(),
        spec_keys_actions(keys.subrange(0, m), delay_ms) is Err,
    ensures
        spec_keys_actions(keys, delay_ms) == spec_keys_actions(keys.subrange(0, m), delay_ms),
    decreases keys.len(),
{
    if m == keys.len() {
        assert(keys.subrange(0, m) =~= keys);
    } else {
        assert(keys.drop_last() =~= keys.subrange(0, keys.len() - 1));
        assert(keys.subrange(0, keys.len() - 1).subrange(0, m) =~= keys.subrange(0, m));
        lemma_keys_actions_err(keys.subrange(0, keys.len() - 1), delay_ms, m);
    }
}

/// The actions one replay event expands to, or the first encoder
/// rejection inside a key batch. A key batch is written as a single
/// concatenated payload when the per-key delay is zero, and key by key
/// otherwise; the batch pause follows either way. A mouse release is
/// framed with the left button code. Paste is bracketed; focus events
/// are their fixed sequences.
pub open spec fn spec_event_actions(e: EventModel, timing: ReplayTiming) -> Result<
    Seq<ActionModel>,
    KeyEncodeError,
> {
    match e {
        EventModel::KeyBatch(keys) => if timing.key_delay_ms == 0 {
            match spec_batch_payload(keys) {
                Ok(payload) => Ok(
                    (if payload.len() == 0 {
                        Seq::<ActionModel>::empty()
                    } else {
                        seq![ActionModel::Write(payload)]
                    }) + seq![ActionModel::Sleep(timing.batch_pause_ms)],
                ),
                Err(e) => Err(e),
            }
        } else {
            match spec_keys_actions(keys, timing.key_delay_ms) {
                Ok(a) => Ok(a + seq![ActionModel::Sleep(timing.batch_pause_ms)]),
                Err(e) => Err(e),
            }
        },
        EventModel::MousePress { button, col, row } => Ok(
            seq![
                ActionModel::Write(
                    spec_sgr_report(button_code(button), col as nat + 1, row as nat + 1, 'M'),
                ),
            ],
        ),
        EventModel::MouseRelease { col, row } => Ok(
            seq![ActionModel::Write(spec_sgr_report(0, col as nat + 1, row as nat + 1, 'm'))],
        ),
        EventModel::MouseDrag { button, col, row } => Ok(
            seq![
                ActionModel::Write(
                    spec_sgr_report(button_code(button) + 32, col as nat + 1, row as nat + 1, 'M'),
                ),
            ],
        ),
        EventModel::MouseScroll { direction, col, row } => Ok(
            seq![
                ActionModel::Write(
                    spec_sgr_report(scroll_code(direction), col as nat + 1, row as nat + 1, 'M'),
                ),
            ],
        ),
        EventModel::MouseMove { col, row } => Ok(
            seq![ActionModel::Write(spec_sgr_report(35, col as nat + 1, row as nat + 1, 'M'))],
        ),
        EventModel::Paste(s) => Ok(seq![ActionModel::Write("\x1b[200~"@ + s + "\x1b[201~"@)]),
        EventModel::Resize { cols, rows } => Ok(seq![ActionModel::Resize { cols, rows }]),
        EventModel::FocusIn => Ok(seq![ActionModel::Write("\x1b[I"@)]),
        EventModel::FocusOut => Ok(seq![ActionModel::Write("\x1b[O"@)]),
    }
}

/// The full plan of a replay: events expanded in recording order,
/// nothing reordered or coalesced, stopped at the first encoder
/// rejection, which is the plan's error.
pub open spec fn spec_replay_plan(events: Seq<EventModel>, timing: ReplayTiming) -> Result<
    Seq<ActionModel>,
    KeyEncodeError,
>
    decreases events.len(),
{
    if events.len() == 0 {
        Ok(Seq::empty())
    } else {
        match spec_replay_plan(events.drop_last(), timing) {
            Ok(p) => match spec_event_actions(events.last(), timing) {
                Ok(a) => Ok(p + a),
                Err(e) => Err(e),
            },
            Err(e) => Err(e),
        }
    }
}

/// Once a prefix of the events has erred, the whole plan is that same
/// error.
pub proof fn lemma_replay_plan_err(events: Seq<EventModel>, timing: ReplayTiming, m: int)
    requires
        0 <= m <= events.len(),
        spec_replay_plan(events.subrange(0, m), timing) is Err,
    ensures
        spec_replay_plan(events, timing) == spec_replay_plan(events.subrange(0, m), timing),
    decreases events.len(),
{
    if m == events.len() {
        assert(events.subrange(0, m) =~= events);
    } else {
        assert(events.drop_last() =~= events.subrange(0, events.len() - 1));
        assert(events.subrange(0, events.len() - 1).subrange(0, m) =~= events.subrange(0, m));
        lemma_replay_plan_err(events.subrange(0, events.len() - 1), timing, m);
    }
}

/// Expands parsed events into the ordered action list a transport layer
/// must perform: within one batch, keys in recording order; across
/// events, recording order. A resolved key the keyboard encoder rejects
/// is a hard error: the first one aborts the plan and is returned.
pub fn plan_replay(events: &Vec<ReplayEvent>, timing: ReplayTiming) -> (r: Result<
    Vec<ReplayAction>,
    KeyEncodeError,
>)
    ensures
        (match r {
            Ok(plan) => spec_replay_plan(event_views(events@), timing) == Ok::<
                Seq<ActionModel>,
                KeyEncodeError,
            >(action_views(plan@)),
            Err(e) => spec_replay_plan(event_views(events@), timing) == Err::<
                Seq<ActionModel>,
                KeyEncodeError,
            >(e),
        }),
{
    let mut out: Vec<ReplayAction> = Vec::new();
    let mut i: usize = 0;
    proof {
        assert(event_views(events@).subrange(0, 0) =~= Seq::<EventModel>::empty());
        assert(action_views(out@) =~= Seq::<ActionModel>::empty());
    }
    while i < events.len()
        invariant
            0 <= i <= events@.len(),
            spec_replay_plan(event_views(events@).subrange(0, i as int), timing) == Ok::<
                Seq<ActionModel>,
                KeyEncodeError,
            >(action_views(out@)),
        decreases events@.len() - i,
    {
        let ghost pre = event_views(events@).subrange(0, i as int);
        let ghost post = event_views(events@).subrange(0, i as int + 1);
        let ghost ev = event_views(events@)[i as int];
        proof {
            assert(post.drop_last() =~= pre);
            assert(post.last() == ev);
            assert(ev == events@[i as int]@);
        }
        let ghost before = action_views(out@);
        match &events[i] {
            ReplayEvent::KeyBatch(keys) => {
                proof {
                    assert(ev == EventModel::KeyBatch(views_of(keys@)));
                }
                if timing.key_delay_ms == 0 {
                    match encode_key_batch(keys) {
                        Ok(payload) => {
                            if payload.as_str().unicode_len() > 0 {
                                let ghost w = payload@;
                                out.push(ReplayAction::Write(payload));
                                proof {
                                    assert(action_views(out@) =~~= before.push(
                                        ActionModel::Write(w),
                                    ));
                                }
                            }
                        },
                        Err(e) => {
                            proof {
                                assert(spec_event_actions(ev, timing) == Err::<
                                    Seq<ActionModel>,
                                    KeyEncodeError,
                                >(e));
                                assert(spec_replay_plan(post, timing) == Err::<
                                    Seq<ActionModel>,
                                    KeyEncodeError,
                                >(e));
                                lemma_replay_plan_err(event_views(events@), timing, i as int + 1);
                            }
                            return Err(e);
                        },
                    }
                } else {
                    let mut k: usize = 0;
                    proof {
                        assert(views_of(keys@).subrange(0, 0) =~= Seq::<Seq<char>>::empty());
                        assert(action_views(out@) =~= before + Seq::<ActionModel>::empty());
                    }
                    while k < keys.len()
                        invariant
                            0 <= k <= keys@.len(),
                            0 <= i < events@.len(),
                            timing.key_delay_ms != 0,
                            pre == event_views(events@).subrange(0, i as int),
                            post == event_views(events@).subrange(0, i as int + 1),
                            post.drop_last() == pre,
                            post.last() == ev,
                            ev == EventModel::KeyBatch(views_of(keys@)),
                            spec_replay_plan(pre, timing) == Ok::<Seq<ActionModel>, KeyEncodeError>(
                                before,
                            ),
                            spec_keys_actions(
                                views_of(keys@).subrange(0, k as int),
                                timing.key_delay_ms,
                            ) matches Ok(a) && action_views(out@) == before + a,
                        decreases keys@.len() - k,
                    {
                        let ghost kpre = views_of(keys@).subrange(0, k as int);
                        let ghost kpost = views_of(keys@).subrange(0, k as int + 1);
                        proof {
                            assert(kpost.drop_last() =~= kpre);
                            assert(kpost.last() == views_of(keys@)[k as int]);
                            assert(views_of(keys@)[k as int] == keys@[k as int]@);
                        }
                        match encode_key_name(keys[k].as_str()) {
                            Ok(Some(e)) => {
                                proof {
                                    assert(spec_encode_key_name(kpost.last()) == Ok::<
                                        Option<Seq<char>>,
                                        KeyEncodeError,
                                    >(Some(e@)));
                                }
                                let ghost snap = action_views(out@);
                                out.push(ReplayAction::Write(e));
                                out.push(ReplayAction::Sleep(timing.key_delay_ms));
                                proof {
                                    assert(action_views(out@) =~~= snap.push(
                                        ActionModel::Write(e@),
                                    ).push(ActionModel::Sleep(timing.key_delay_ms)));
                                }
                            },
                            Ok(None) => {},
                            Err(e) => {
                                proof {
                                    assert(spec_keys_actions(kpost, timing.key_delay_ms) == Err::<
                                        Seq<ActionModel>,
                                        KeyEncodeError,
                                    >(e));
                                    lemma_keys_actions_err(
                                        views_of(keys@),
                                        timing.key_delay_ms,
                                        k as int + 1,
                                    );
                                    assert(spec_event_actions(ev, timing) == Err::<
                                        Seq<ActionModel>,
                                        KeyEncodeError,
                                    >(e));
                                    assert(spec_replay_plan(post, timing) == Err::<
                                        Seq<ActionModel>,
                                        KeyEncodeError,
                                    >(e));
                                    lemma_replay_plan_err(
                                        event_views(events@),
                                        timing,
                                        i as int + 1,
                                    );
                                }
                                return Err(e);
                            },
                        }
                        proof {
                            assert(spec_keys_actions(kpost, timing.key_delay_ms) matches Ok(a)
                                && action_views(out@) =~~= before + a);
                        }
                        k += 1;
                    }
                    proof {
                        assert(views_of(keys@).subrange(0, keys@.len() as int) =~= views_of(
                            keys@,
                        ));
                    }
                }
                let ghost mid = action_views(out@);
                out.push(ReplayAction::Sleep(timing.batch_pause_ms));
                proof {
                    assert(action_views(out@) =~~= mid.push(
                        ActionModel::Sleep(timing.batch_pause_ms),
                    ));
                    assert(spec_event_actions(ev, timing) matches Ok(a) && action_views(out@)
                        =~~= before + a);
                }
            },
            ReplayEvent::MousePress { button, col, row } => {
                out.push(ReplayAction::Write(crate::mouse::encode_mouse_press(*button, *col, *row)));
                proof {
                    assert(spec_event_actions(ev, timing) matches Ok(a) && action_views(out@)
                        =~~= before + a);
                }
            },
            ReplayEvent::MouseRelease { col, row } => {
                // the SGR release trailer carries no distinct button; the
                // left code frames every release
                out.push(
                    ReplayAction::Write(
                        crate::mouse::encode_mouse_release(MouseButton::Left, *col, *row),
                    ),
                );
                proof {
                    assert(spec_event_actions(ev, timing) matches Ok(a) && action_views(out@)
                        =~~= before + a);
                }
            },
            ReplayEvent::MouseDrag { button, col, row } => {
                out.push(ReplayAction::Write(crate::mouse::encode_mouse_drag(*button, *col, *row)));
                proof {
                    assert(spec_event_actions(ev, timing) matches Ok(a) && action_views(out@)
                        =~~= before + a);
                }
            },
            ReplayEvent::MouseScroll { direction, col, row } => {
                out.push(
                    ReplayAction::Write(crate::mouse::encode_mouse_scroll(*direction, *col, *row)),
                );
                proof {
                    assert(spec_event_actions(ev, timing) matches Ok(a) && action_views(out@)
                        =~~= before + a);
                }
            },
            ReplayEvent::MouseMove { col, row } => {
                out.push(ReplayAction::Write(crate::mouse::encode_mouse_move(*col, *row)));
                proof {
                    assert(spec_event_actions(ev, timing) matches Ok(a) && action_views(out@)
                        =~~= before + a);
                }
            },
            ReplayEvent::Paste(content) => {
                let mut s = String::from_str("\x1b[200~");
                s.append(content.as_str());
                s.append("\x1b[201~");
                proof {
                    reveal_strlit("\x1b[200~");
                    reveal_strlit("\x1b[201~");
                }
                out.push(ReplayAction::Write(s));
                proof {
                    assert(spec_event_actions(ev, timing) matches Ok(a) && action_views(out@)
                        =~~= before + a);
                }
            },
            ReplayEvent::Resize { cols, rows } => {
                out.push(ReplayAction::Resize { cols: *cols, rows: *rows });
                proof {
                    assert(spec_event_actions(ev, timing) matches Ok(a) && action_views(out@)
                        =~~= before + a);
                }
            },
            ReplayEvent::FocusIn => {
                out.push(ReplayAction::Write(String::from_str("\x1b[I")));
                proof {
                    assert(spec_event_actions(ev, timing) matches Ok(a) && action_views(out@)
                        =~~= before + a);
                }
            },
            ReplayEvent::FocusOut => {
                out.push(ReplayAction::Write(String::from_str("\x1b[O")));
                proof {
                    assert(spec_event_actions(ev, timing) matches Ok(a) && action_views(out@)
                        =~~= before + a);
                }
            },
        }
        proof {
            assert(spec_replay_plan(post, timing) == Ok::<Seq<ActionModel>, KeyEncodeError>(
                action_views(out@),
            ));
        }
        i += 1;
    }
    proof {
        assert(event_views(events@).subrange(0, events@.len() as int) =~= event_views(events@));
    }
    Ok(out)
}

} // verus!
