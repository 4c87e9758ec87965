//! SGR mouse-protocol encoding (extended mouse mode 1006).
//!
//! An SGR mouse report is `ESC [ < Cb ; Cx ; Cy M` for press-like events and
//! `ESC [ < Cb ; Cx ; Cy m` for release, where `Cb` is the button code
//! (0 = left, 1 = middle, 2 = right, +32 for motion, 64..=67 for scroll)
//! and `Cx`/`Cy` are 1-based coordinates. All encoders here accept 0-based
//! coordinates and convert to 1-based.

use vstd::prelude::*;
use crate::text::dec_digits;
use crate::text::u32_to_dec;

verus! {

/// Mouse button identifiers.
#[derive(Debug, Clone, Copy, PartialEq, Eq, Structural)]
pub enum MouseButton {
    /// Left mouse button (button 0).
    Left,
    /// Middle mouse button (button 1).
    Middle,
    /// Right mouse button (button 2).
    Right,
}

/// Scroll wheel directions, encoded with the xterm wheel codes 64..=67.
#[derive(Debug, Clone, Copy, PartialEq, Eq, Structural)]
pub enum ScrollDirection {
    /// Wheel up (code 64).
    Up,
    /// Wheel down (code 65).
    Down,
    /// Wheel left (code 66).
    Left,
    /// Wheel right (code 67).
    Right,
}

/// The SGR button code of a button.
pub open spec fn button_code(b: MouseButton) -> nat {
    match b {
        MouseButton::Left => 0,
        MouseButton::Middle => 1,
        MouseButton::Right => 2,
    }
}

/// The SGR wheel code of a scroll direction.
pub open spec fn scroll_code(d: ScrollDirection) -> nat {
    match d {
        ScrollDirection::Up => 64,
        ScrollDirection::Down => 65,
        ScrollDirection::Left => 66,
        ScrollDirection::Right => 67,
    }
}

impl MouseButton {
    /// Returns the SGR button code for this button.
    fn code(self) -> (r: u8)
        ensures
            r as nat == button_code(self),
    {
        match self {
            MouseButton::Left => 0,
            MouseButton::Middle => 1,
            MouseButton::Right => 2,
        }
    }
}

impl ScrollDirection {
    fn code(self) -> (r: u8)
        ensures
            r as nat == scroll_code(self),
    {
        match self {
            ScrollDirection::Up => 64,
            ScrollDirection::Down => 65,
            ScrollDirection::Left => 66,
            ScrollDirection::Right => 67,
        }
    }
}

/// An SGR mouse report: `ESC [ <` code `;` col `;` row, then the trailer.
/// `col` and `row` are the 1-based coordinates as transmitted.
pub open spec fn spec_sgr_report(code: nat, col: nat, row: nat, trailer: char) -> Seq<char> {
    seq!['\x1b', '[', '<'] + dec_digits(code) + seq![';'] + dec_digits(col) + seq![';'] + dec_digits(
        row,
    ) + seq![trailer]
}

fn sgr_report(code: u8, col: u16, row: u16, trailer: &str) -> (r: String)
    requires
        trailer@.len() == 1,
    ensures
        r@ == spec_sgr_report(code as nat, col as nat + 1, row as nat + 1, trailer@[0]),
{
    let mut s = String::from_str("\x1b[<");
    s.append(u32_to_dec(code as u32).as_str());
    s.append(";");
    s.append(u32_to_dec(col as u32 + 1).as_str());
    s.append(";");
    s.append(u32_to_dec(row as u32 + 1).as_str());
    s.append(trailer);
    proof {
        reveal_strlit("\x1b[<");
        reveal_strlit(";");
        assert(s@ =~= spec_sgr_report(code as nat, col as nat + 1, row as nat + 1, trailer@[0]));
    }
    s
}

/// Encodes a mouse press event in SGR format: same-code `M` trailer.
pub fn encode_mouse_press(button: MouseButton, col: u16, row: u16) -> (r: String)
    ensures
        r@ == spec_sgr_report(button_code(button), col as nat + 1, row as nat + 1, 'M'),
{
    proof {
        reveal_strlit("M");
    }
    sgr_report(button.code(), col, row, "M")
}

/// Encodes a mouse release event in SGR format: same button code as the
/// press, lowercase `m` trailer.
pub fn encode_mouse_release(button: MouseButton, col: u16, row: u16) -> (r: String)
    ensures
        r@ == spec_sgr_report(button_code(button), col as nat + 1, row as nat + 1, 'm'),
{
    proof {
        reveal_strlit("m");
    }
    sgr_report(button.code(), col, row, "m")
}

/// Encodes a mouse drag (motion with a held button): button code + 32.
pub fn encode_mouse_drag(button: MouseButton, col: u16, row: u16) -> (r: String)
    ensures
        r@ == spec_sgr_report(button_code(button) + 32, col as nat + 1, row as nat + 1, 'M'),
{
    proof {
        reveal_strlit("M");
    }
    sgr_report(button.code() + 32, col, row, "M")
}

/// Encodes a mouse move (motion with no button held): fixed code 35.
pub fn encode_mouse_move(col: u16, row: u16) -> (r: String)
    ensures
        r@ == spec_sgr_report(35, col as nat + 1, row as nat + 1, 'M'),
{
    proof {
        reveal_strlit("M");
    }
    sgr_report(35, col, row, "M")
}

/// Encodes a mouse scroll event with the direction's wheel code.
pub fn encode_mouse_scroll(direction: ScrollDirection, col: u16, row: u16) -> (r: String)
    ensures
        r@ == spec_sgr_report(scroll_code(direction), col as nat + 1, row as nat + 1, 'M'),
{
    proof {
        reveal_strlit("M");
    }
    sgr_report(direction.code(), col, row, "M")
}

} // verus!
