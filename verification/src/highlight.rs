//! Syntax highlighting for brace expressions: every brace, and every comma
//! inside a group, is coloured by the nesting level of its group.

pub mod ansi;

use vstd::prelude::*;
use crate::text::chars_of;
use owo_colors::{AnsiColors, OwoColorize};

verus! {

/// The colours that the nesting levels cycle through.
#[derive(Debug, Clone, Copy, PartialEq, Eq)]
pub enum Tint {
    Cyan,
    Yellow,
    Magenta,
    Green,
    Blue,
}

/// The number by which ANSI terminals know a foreground colour.
pub open spec fn tint_code(t: Tint) -> Seq<char> {
    match t {
        Tint::Cyan => seq!['3', '6'],
        Tint::Yellow => seq!['3', '3'],
        Tint::Magenta => seq!['3', '5'],
        Tint::Green => seq!['3', '2'],
        Tint::Blue => seq!['3', '4'],
    }
}

/// `c` in the colour `t`: the escape sequence that sets the foreground
/// colour, the character, and the sequence that resets the foreground.
pub open spec fn painted(c: char, t: Tint) -> Seq<char> {
    seq!['\u{1b}', '['] + tint_code(t) + seq!['m', c, '\u{1b}', '[', '3', '9', 'm']
}

/// The colour of nesting level `level`.
pub open spec fn palette(level: nat) -> Tint {
    if level % 5 == 0 {
        Tint::Cyan
    } else if level % 5 == 1 {
        Tint::Yellow
    } else if level % 5 == 2 {
        Tint::Magenta
    } else if level % 5 == 3 {
        Tint::Green
    } else {
        Tint::Blue
    }
}

/// The nesting level after a closing brace.
pub open spec fn shallower(depth: nat) -> nat {
    if depth > 0 {
        (depth - 1) as nat
    } else {
        0
    }
}

/// `s[i..]` highlighted, with `depth` groups open at `i`.
pub open spec fn highlight_from(s: Seq<char>, i: int, depth: nat) -> Seq<char>
    decreases s.len() - i,
{
    if i < 0 || i >= s.len() {
        Seq::empty()
    } else if s[i] == '{' {
        painted(s[i], palette(depth)) + highlight_from(s, i + 1, depth + 1)
    } else if s[i] == '}' {
        painted(s[i], palette(shallower(depth))) + highlight_from(s, i + 1, shallower(depth))
    } else if s[i] == ',' && depth > 0 {
        painted(s[i], palette(shallower(depth))) + highlight_from(s, i + 1, depth)
    } else {
        seq![s[i]] + highlight_from(s, i + 1, depth)
    }
}

/// The highlighted text.
pub open spec fn highlighted(s: Seq<char>) -> Seq<char> {
    highlight_from(s, 0, 0)
}

/// Taken on trust from owo-colors: formats one character through
/// `OwoColorize::color` with the `AnsiColors` value of the same name. The
/// contract claims what the `Display` of the value that `color` returns
/// writes: the colour's foreground sequence (`ESC [ 3x m`), the character,
/// and the sequence that resets the foreground (`ESC [ 39 m`).
#[verifier::external_body]
fn paint(c: char, t: Tint) -> (s: String)
    ensures
        s@ == painted(c, t),
{
    let color = match t {
        Tint::Cyan => AnsiColors::Cyan,
        Tint::Yellow => AnsiColors::Yellow,
        Tint::Magenta => AnsiColors::Magenta,
        Tint::Green => AnsiColors::Green,
        Tint::Blue => AnsiColors::Blue,
    };
    format!("{}", c.color(color))
}

/// The colour of a nesting level.
pub fn tint_of(level: usize) -> (t: Tint)
    ensures
        t == palette(level as nat),
{
    let k = level % 5;
    if k == 0 {
        Tint::Cyan
    } else if k == 1 {
        Tint::Yellow
    } else if k == 2 {
        Tint::Magenta
    } else if k == 3 {
        Tint::Green
    } else {
        Tint::Blue
    }
}

/// Highlights the braces of a brace expression, and the commas inside its
/// groups, with colours that cycle with the nesting level.
pub fn highlight_braces(text: &str) -> (r: String)
    ensures
        r@ == highlighted(text@),
{
    let s = chars_of(text);
    let mut result = String::new();
    let mut depth: usize = 0;
    let mut i: usize = 0;
    while i < s.len()
        invariant
            i <= s.len(),
            depth <= i,
            highlighted(s@) == result@ + highlight_from(s@, i as int, depth as nat),
        decreases s.len() - i,
    {
        let ch = s[i];
        let ghost before = result@;
        let ghost level = depth as nat;
        if ch == '{' {
            result.append(paint(ch, tint_of(depth)).as_str());
            depth += 1;
        } else if ch == '}' {
            if depth > 0 {
                depth -= 1;
            }
            result.append(paint(ch, tint_of(depth)).as_str());
        } else if ch == ',' && depth > 0 {
            result.append(paint(ch, tint_of(depth - 1)).as_str());
        } else {
            result.push(ch);
        }
        i += 1;
        proof {
            assert(before + highlight_from(s@, i - 1, level) =~= result@ + highlight_from(
                s@,
                i as int,
                depth as nat,
            ));
        }
    }
    assert(result@ + Seq::<char>::empty() =~= result@);
    result
}

} // verus!
