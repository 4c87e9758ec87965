//! Key-name grammar and keyboard encoding.
//!
//! A key name is zero or more modifier prefixes `C-`, `A-`, `S-` (in any
//! order, duplicates idempotent) followed by a base name from a closed
//! vocabulary, a function key `f<N>`/`F<N>`, or a single character taken
//! verbatim. Rendering a resolved key to terminal bytes is delegated to
//! termwiz, under one fixed encoding configuration: kitty keyboard
//! encoding with no flags, application cursor keys off, newline mode off,
//! and legacy modify-other-keys off.
//!
//! Failures are of two kinds and are kept apart: a name outside the
//! vocabulary is skipped silently (best-effort, like the rest of the
//! recording format), while a resolved key that the keyboard encoder
//! rejects is a hard error ([`KeyEncodeError`]), propagated to the
//! caller and never dropped.

use vstd::prelude::*;
use crate::text::parse_u32_bounded;
use crate::text::spec_parse_uint;
use crate::text::spec_starts_with;
use crate::text::starts_with;
use crate::text::str_eq;
use crate::text::views_of;
use termwiz::escape::csi::KittyKeyboardFlags;
use termwiz::input::KeyCode::Backspace as TwBs;
use termwiz::input::KeyCode::Char as TwChar;
use termwiz::input::KeyCode::Delete as TwDel;
use termwiz::input::KeyCode::DownArrow as TwDown;
use termwiz::input::KeyCode::End as TwEnd;
use termwiz::input::KeyCode::Enter as TwEnter;
use termwiz::input::KeyCode::Escape as TwEsc;
use termwiz::input::KeyCode::Function as TwFn;
use termwiz::input::KeyCode::Home as TwHome;
use termwiz::input::KeyCode::Insert as TwIns;
use termwiz::input::KeyCode::LeftArrow as TwLeft;
use termwiz::input::KeyCode::PageDown as TwPgDn;
use termwiz::input::KeyCode::PageUp as TwPgUp;
use termwiz::input::KeyCode::RightArrow as TwRight;
use termwiz::input::KeyCode::Tab as TwTab;
use termwiz::input::KeyCode::UpArrow as TwUp;
use termwiz::input::KeyCodeEncodeModes;
use termwiz::input::KeyboardEncoding::Kitty as TwKitty;
use termwiz::input::Modifiers;
use crate::keys::KeyName as K;

verus! {

/// A resolved base key.
#[derive(Debug, Clone, Copy, PartialEq, Eq, Structural)]
pub enum KeyName {
    Esc,
    Enter,
    Tab,
    Backspace,
    Delete,
    Insert,
    Home,
    End,
    PageUp,
    PageDown,
    Up,
    Down,
    Left,
    Right,
    /// Function key `N`.
    Function(u8),
    /// A single character taken verbatim.
    Char(char),
}

/// A key with its modifier set. Modifier combinations are additive and
/// order-independent.
#[derive(Debug, Clone, Copy, PartialEq, Eq, Structural)]
pub struct KeyPress {
    pub key: KeyName,
    pub ctrl: bool,
    pub alt: bool,
    pub shift: bool,
}

/// Strips modifier prefixes off a key name: the remaining base name and
/// which of Ctrl, Alt, Shift were named. Each prefix occurrence strips
/// once; repeating a prefix is idempotent.
pub open spec fn spec_strip_mods(s: Seq<char>) -> (Seq<char>, bool, bool, bool)
    decreases s.len(),
{
    if spec_starts_with(s, "C-"@) && s.len() >= 2 {
        let p = spec_strip_mods(s.subrange(2, s.len() as int));
        (p.0, true, p.2, p.3)
    } else if spec_starts_with(s, "A-"@) && s.len() >= 2 {
        let p = spec_strip_mods(s.subrange(2, s.len() as int));
        (p.0, p.1, true, p.3)
    } else if spec_starts_with(s, "S-"@) && s.len() >= 2 {
        let p = spec_strip_mods(s.subrange(2, s.len() as int));
        (p.0, p.1, p.2, true)
    } else {
        (s, false, false, false)
    }
}

/// The base key a name resolves to, if any. `backtab` resolves to `Tab`
/// (the implied Shift is added by [`spec_parse_key`]). A bare `f` or `F`
/// carries no function-key number and is a verbatim single-character
/// key.
pub open spec fn spec_base_key(s: Seq<char>) -> Option<KeyName> {
    if s == "esc"@ {
        Some(KeyName::Esc)
    } else if s == "enter"@ || s == "ret"@ {
        Some(KeyName::Enter)
    } else if s == "tab"@ || s == "backtab"@ {
        Some(KeyName::Tab)
    } else if s == "backspace"@ || s == "bs"@ {
        Some(KeyName::Backspace)
    } else if s == "del"@ || s == "delete"@ {
        Some(KeyName::Delete)
    } else if s == "insert"@ || s == "ins"@ {
        Some(KeyName::Insert)
    } else if s == "home"@ {
        Some(KeyName::Home)
    } else if s == "end"@ {
        Some(KeyName::End)
    } else if s == "pageup"@ {
        Some(KeyName::PageUp)
    } else if s == "pagedown"@ {
        Some(KeyName::PageDown)
    } else if s == "up"@ {
        Some(KeyName::Up)
    } else if s == "down"@ {
        Some(KeyName::Down)
    } else if s == "left"@ {
        Some(KeyName::Left)
    } else if s == "right"@ {
        Some(KeyName::Right)
    } else if s == "space"@ {
        Some(KeyName::Char(' '))
    } else if s.len() >= 2 && (s[0] == 'F' || s[0] == 'f') {
        match spec_parse_uint(s.subrange(1, s.len() as int), 255) {
            Some(n) => Some(KeyName::Function(n as u8)),
            None => None,
        }
    } else if s.len() == 1 {
        Some(KeyName::Char(s[0]))
    } else {
        None
    }
}

/// The key press a full name (modifier prefixes and base name) resolves
/// to, or `None` where the base name is not in the vocabulary.
pub open spec fn spec_parse_key(s: Seq<char>) -> Option<KeyPress> {
    let p = spec_strip_mods(s);
    match spec_base_key(p.0) {
        Some(k) => Some(
            KeyPress { key: k, ctrl: p.1, alt: p.2, shift: p.3 || p.0 == "backtab"@ },
        ),
        None => None,
    }
}

/// Parses a key name into a key press.
pub fn parse_key_name(name: &str) -> (r: Option<KeyPress>)
    ensures
        (match r {
            Some(k) => spec_parse_key(name@) == Some(k),
            None => spec_parse_key(name@) is None,
        }),
{
    proof {
        reveal_strlit("C-");
        reveal_strlit("A-");
        reveal_strlit("S-");
    }
    let mut rest: &str = name;
    let mut ctrl = false;
    let mut alt = false;
    let mut shift = false;
    loop
        invariant
            spec_strip_mods(name@).0 == spec_strip_mods(rest@).0,
            spec_strip_mods(name@).1 == (ctrl || spec_strip_mods(rest@).1),
            spec_strip_mods(name@).2 == (alt || spec_strip_mods(rest@).2),
            spec_strip_mods(name@).3 == (shift || spec_strip_mods(rest@).3),
        ensures
            spec_strip_mods(name@).0 == spec_strip_mods(rest@).0,
            spec_strip_mods(name@).1 == (ctrl || spec_strip_mods(rest@).1),
            spec_strip_mods(name@).2 == (alt || spec_strip_mods(rest@).2),
            spec_strip_mods(name@).3 == (shift || spec_strip_mods(rest@).3),
            !spec_starts_with(rest@, "C-"@),
            !spec_starts_with(rest@, "A-"@),
            !spec_starts_with(rest@, "S-"@),
        decreases rest@.len(),
    {
        proof {
            reveal_strlit("C-");
            reveal_strlit("A-");
            reveal_strlit("S-");
        }
        let n = rest.unicode_len();
        if starts_with(rest, "C-") {
            ctrl = true;
            rest = rest.substring_char(2, n);
        } else if starts_with(rest, "A-") {
            alt = true;
            rest = rest.substring_char(2, n);
        } else if starts_with(rest, "S-") {
            shift = true;
            rest = rest.substring_char(2, n);
        } else {
            break;
        }
    }
    let base = resolve_base(rest);
    match base {
        Some(key) => {
            let backtab = str_eq(rest, "backtab");
            Some(KeyPress { key, ctrl, alt, shift: shift || backtab })
        },
        None => None,
    }
}

fn resolve_base(rest: &str) -> (r: Option<KeyName>)
    ensures
        (match r {
            Some(k) => spec_base_key(rest@) == Some(k),
            None => spec_base_key(rest@) is None,
        }),
{
    if str_eq(rest, "esc") {
        Some(KeyName::Esc)
    } else if str_eq(rest, "enter") || str_eq(rest, "ret") {
        Some(KeyName::Enter)
    } else if str_eq(rest, "tab") || str_eq(rest, "backtab") {
        Some(KeyName::Tab)
    } else if str_eq(rest, "backspace") || str_eq(rest, "bs") {
        Some(KeyName::Backspace)
    } else if str_eq(rest, "del") || str_eq(rest, "delete") {
        Some(KeyName::Delete)
    } else if str_eq(rest, "insert") || str_eq(rest, "ins") {
        Some(KeyName::Insert)
    } else if str_eq(rest, "home") {
        Some(KeyName::Home)
    } else if str_eq(rest, "end") {
        Some(KeyName::End)
    } else if str_eq(rest, "pageup") {
        Some(KeyName::PageUp)
    } else if str_eq(rest, "pagedown") {
        Some(KeyName::PageDown)
    } else if str_eq(rest, "up") {
        Some(KeyName::Up)
    } else if str_eq(rest, "down") {
        Some(KeyName::Down)
    } else if str_eq(rest, "left") {
        Some(KeyName::Left)
    } else if str_eq(rest, "right") {
        Some(KeyName::Right)
    } else if str_eq(rest, "space") {
        Some(KeyName::Char(' '))
    } else {
        let n = rest.unicode_len();
        if n >= 2 && (rest.get_char(0) == 'F' || rest.get_char(0) == 'f') {
            match parse_u32_bounded(rest.substring_char(1, n), 255) {
                Some(v) => Some(KeyName::Function(v as u8)),
                None => None,
            }
        } else if n == 1 {
            Some(KeyName::Char(rest.get_char(0)))
        } else {
            None
        }
    }
}

/// What termwiz's `KeyCode::encode` yields for a key-down event under
/// this crate's fixed encoding configuration: a function of the key and
/// modifiers alone, `None` where that encoder rejects the combination.
pub uninterp spec fn key_bytes_of(key: KeyPress) -> Option<Seq<char>>;

/// The one resolved key the engine refuses to delegate: the keyboard
/// encoder's function-key arm has no rendering at all for function key
/// 0 (it does not return an error for it), so the engine treats `f0` as
/// a combination the capability rejects.
pub open spec fn spec_undelegated_key(k: KeyPress) -> bool {
    k.key == KeyName::Function(0)
}

/// Relies on termwiz's `KeyCode::encode`, called for a key-down event
/// with kitty encoding (no flags), cursor keys, newline mode and
/// modify-other-keys all off: deterministic over key and modifiers, and
/// returning for every key passed here (its function-key arm does not
/// return for function key 0, which the `requires` leaves out).
#[verifier::external_body]
fn termwiz_encode_key(key: &KeyPress) -> (r: Option<String>)
    requires
        !spec_undelegated_key(*key),
    ensures
        (match r {
            Some(t) => key_bytes_of(*key) == Some(t@),
            None => key_bytes_of(*key) is None,
        }),
{
    let mut mods = Modifiers::NONE;
    if key.ctrl { mods |= Modifiers::CTRL; }
    if key.alt { mods |= Modifiers::ALT; }
    if key.shift { mods |= Modifiers::SHIFT; }
    (match key.key {
        K::Esc => TwEsc, K::Enter => TwEnter, K::Tab => TwTab, K::Backspace => TwBs,
        K::Delete => TwDel, K::Insert => TwIns, K::Home => TwHome, K::End => TwEnd,
        K::PageUp => TwPgUp, K::PageDown => TwPgDn, K::Up => TwUp, K::Down => TwDown,
        K::Left => TwLeft, K::Right => TwRight, K::Function(n) => TwFn(n), K::Char(c) => TwChar(c),
    }).encode(mods, KeyCodeEncodeModes {
        encoding: TwKitty(KittyKeyboardFlags::empty()),
        application_cursor_keys: false, newline_mode: false, modify_other_keys: None,
    }, true).ok()
}

/// A resolved key the keyboard encoder rejected. Unlike a name that
/// fails to resolve (which is skipped silently), this is a hard error:
/// it is propagated, never dropped.
#[derive(Debug, Clone, Copy, PartialEq, Eq, Structural)]
pub struct KeyEncodeError {
    /// The key press the encoder could not render.
    pub key: KeyPress,
}

/// The outcome of encoding a key name: `Ok(None)` where the name does
/// not resolve (skipped silently), `Ok(Some(bytes))` where it encodes,
/// and `Err` where the name resolved but the keyboard encoder rejects
/// the key or combination.
pub open spec fn spec_encode_key_name(s: Seq<char>) -> Result<Option<Seq<char>>, KeyEncodeError> {
    match spec_parse_key(s) {
        Some(k) => if spec_undelegated_key(k) {
            Err(KeyEncodeError { key: k })
        } else {
            match key_bytes_of(k) {
                Some(t) => Ok(Some(t)),
                None => Err(KeyEncodeError { key: k }),
            }
        },
        None => Ok(None),
    }
}

/// Encodes a key name (recording-format notation) to its terminal byte
/// sequence under the fixed encoding configuration. An unresolved name
/// is `Ok(None)`; a resolved key the encoder rejects is an error.
pub fn encode_key_name(name: &str) -> (r: Result<Option<String>, KeyEncodeError>)
    ensures
        (match r {
            Ok(Some(t)) => spec_encode_key_name(name@) == Ok::<Option<Seq<char>>, KeyEncodeError>(
                Some(t@),
            ),
            Ok(None) => spec_encode_key_name(name@) == Ok::<Option<Seq<char>>, KeyEncodeError>(
                None,
            ),
            Err(e) => spec_encode_key_name(name@) == Err::<Option<Seq<char>>, KeyEncodeError>(e),
        }),
{
    match parse_key_name(name) {
        Some(key) => {
            let undelegated = match key.key {
                KeyName::Function(n) => n == 0,
                _ => false,
            };
            if undelegated {
                Err(KeyEncodeError { key })
            } else {
                match termwiz_encode_key(&key) {
                    Some(t) => Ok(Some(t)),
                    None => Err(KeyEncodeError { key }),
                }
            }
        },
        None => Ok(None),
    }
}

/// The concatenated payload of a key batch: each key name rendered in
/// order, unresolvable names contributing nothing; the first encoder
/// rejection is the batch's error.
pub open spec fn spec_batch_payload(keys: Seq<Seq<char>>) -> Result<Seq<char>, KeyEncodeError>
    decreases keys.len(),
{
    if keys.len() == 0 {
        Ok(Seq::empty())
    } else {
        match spec_batch_payload(keys.drop_last()) {
            Ok(p) => match spec_encode_key_name(keys.last()) {
                Ok(Some(t)) => Ok(p + t),
                Ok(None) => Ok(p),
                Err(e) => Err(e),
            },
            Err(e) => Err(e),
        }
    }
}

/// Once a prefix of the batch has erred, the whole batch's payload is
/// that same error: later keys cannot undo it.
pub proof fn lemma_batch_payload_err(keys: Seq<Seq<char>>, m: int)
    requires
        0 <= m <= keys.len(),
        spec_batch_payload(keys.subrange(0, m)) is Err,
    ensures
        spec_batch_payload(keys) == spec_batch_payload(keys.subrange(0, m)),
    decreases keys.len(),
{
    if m == keys.len() {
        assert(keys.subrange(0, m) =~= keys);
    } else {
        assert(keys.drop_last() =~= keys.subrange(0, keys.len() - 1));
        assert(keys.subrange(0, keys.len() - 1).subrange(0, m) =~= keys.subrange(0, m));
        lemma_batch_payload_err(keys.subrange(0, keys.len() - 1), m);
    }
}

/// Renders a whole key batch to one byte string, in recording order, or
/// returns the first encoder rejection.
pub fn encode_key_batch(keys: &Vec<String>) -> (r: Result<String, KeyEncodeError>)
    ensures
        (match r {
            Ok(payload) => spec_batch_payload(views_of(keys@)) == Ok::<Seq<char>, KeyEncodeError>(
                payload@,
            ),
            Err(e) => spec_batch_payload(views_of(keys@)) == Err::<Seq<char>, KeyEncodeError>(e),
        }),
{
    let mut out = String::new();
    let mut i: usize = 0;
    proof {
        assert(views_of(keys@).subrange(0, 0) =~= Seq::<Seq<char>>::empty());
    }
    while i < keys.len()
        invariant
            0 <= i <= keys@.len(),
            spec_batch_payload(views_of(keys@).subrange(0, i as int)) == Ok::<
                Seq<char>,
                KeyEncodeError,
            >(out@),
        decreases keys@.len() - i,
    {
        let ghost pre = views_of(keys@).subrange(0, i as int);
        let ghost post = views_of(keys@).subrange(0, i as int + 1);
        proof {
            assert(post.drop_last() =~= pre);
            assert(post.last() == views_of(keys@)[i as int]);
            assert(views_of(keys@)[i as int] == keys@[i as int]@);
        }
        match encode_key_name(keys[i].as_str()) {
            Ok(Some(e)) => {
                out.append(e.as_str());
            },
            Ok(None) => {},
            Err(e) => {
                proof {
                    assert(spec_batch_payload(post) == Err::<Seq<char>, KeyEncodeError>(e));
                    lemma_batch_payload_err(views_of(keys@), i as int + 1);
                }
                return Err(e);
            },
        }
        proof {
            assert(spec_batch_payload(post) == Ok::<Seq<char>, KeyEncodeError>(out@));
        }
        i += 1;
    }
    proof {
        assert(views_of(keys@).subrange(0, keys@.len() as int) =~= views_of(keys@));
    }
    Ok(out)
}

} // verus!
