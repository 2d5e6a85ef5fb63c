//! Minimal ANSI colour support: a colour is its SGR number.

use vstd::prelude::*;
use crate::error::{decimal, decimal_text};

verus! {

/// An ANSI colour, by the number of its SGR code.
#[derive(Clone, Copy, Debug)]
pub struct Color {
    pub code: u8,
}

impl Color {
    /// The colour with the given SGR code.
    pub fn new(code: u8) -> (c: Self)
        ensures
            c.code == code,
    {
        Self { code }
    }
}

/// Cyan foreground.
pub fn cyan() -> (c: Color)
    ensures
        c.code == 36,
{
    Color::new(36)
}

/// Yellow foreground.
pub fn yellow() -> (c: Color)
    ensures
        c.code == 33,
{
    Color::new(33)
}

/// Magenta foreground.
pub fn magenta() -> (c: Color)
    ensures
        c.code == 35,
{
    Color::new(35)
}

/// Green foreground.
pub fn green() -> (c: Color)
    ensures
        c.code == 32,
{
    Color::new(32)
}

/// Blue foreground.
pub fn blue() -> (c: Color)
    ensures
        c.code == 34,
{
    Color::new(34)
}

/// `text` between the sequence that selects the colour and the sequence
/// that resets all attributes.
pub open spec fn coloured(text: Seq<char>, code: u8) -> Seq<char> {
    seq!['\u{1b}', '['] + decimal(code as nat) + seq!['m'] + text + seq!['\u{1b}', '[', '0', 'm']
}

/// Text that can be shown in a colour.
pub trait Highlight {
    /// The text as plain characters.
    spec fn shown(&self) -> Seq<char>;

    /// The text wrapped in the escape sequences of `color`.
    fn color(&self, color: Color) -> (s: String)
        ensures
            s@ == coloured(self.shown(), color.code),
    ;
}

/// Wraps `text` in the escape sequences of a colour.
pub fn colour_text(text: &str, color: Color) -> (s: String)
    ensures
        s@ == coloured(text@, color.code),
{
    let mut s = String::new();
    s.push('\u{1b}');
    s.push('[');
    s.append(decimal_text(color.code as usize).as_str());
    s.push('m');
    s.append(text);
    s.push('\u{1b}');
    s.push('[');
    s.push('0');
    s.push('m');
    assert(s@ =~= coloured(text@, color.code));
    s
}

impl Highlight for str {
    open spec fn shown(&self) -> Seq<char> {
        self@
    }

    fn color(&self, color: Color) -> (s: String) {
        colour_text(self, color)
    }
}

impl Highlight for String {
    open spec fn shown(&self) -> Seq<char> {
        self@
    }

    fn color(&self, color: Color) -> (s: String) {
        colour_text(self.as_str(), color)
    }
}

impl Highlight for char {
    open spec fn shown(&self) -> Seq<char> {
        seq![*self]
    }

    fn color(&self, color: Color) -> (s: String) {
        let mut one = String::new();
        one.push(*self);
        assert(one@ =~= seq![*self]);
        colour_text(one.as_str(), color)
    }
}

} // verus!
