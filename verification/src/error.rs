//! The failures that compression reports.

use vstd::prelude::*;
use crate::text::texts;

verus! {

/// Why a list of paths could not be compressed.
#[derive(Debug, Clone, PartialEq, Eq)]
pub enum BraceError {
    /// The list of paths was empty.
    EmptyInput,
    /// Some path uses a separator other than the configured one.
    MixedSeparators { found: Vec<String>, expected: String },
    /// Some path already holds brace syntax, and reprocessing is off.
    InvalidBraceInput { path: String, reason: String },
    /// A hard limit on nesting was exceeded.
    DepthLimitExceeded { limit: usize },
}

/// What a `BraceError` holds, as plain character sequences.
pub enum ErrorView {
    EmptyInput,
    MixedSeparators { found: Seq<Seq<char>>, expected: Seq<char> },
    InvalidBraceInput { path: Seq<char>, reason: Seq<char> },
    DepthLimitExceeded { limit: usize },
}

impl View for BraceError {
    type V = ErrorView;

    open spec fn view(&self) -> ErrorView {
        match *self {
            BraceError::EmptyInput => ErrorView::EmptyInput,
            BraceError::MixedSeparators { found, expected } => ErrorView::MixedSeparators {
                found: texts(found@),
                expected: expected@,
            },
            BraceError::InvalidBraceInput { path, reason } => ErrorView::InvalidBraceInput {
                path: path@,
                reason: reason@,
            },
            BraceError::DepthLimitExceeded { limit } => ErrorView::DepthLimitExceeded { limit },
        }
    }
}

/// The decimal digit that stands for `d`, for `d` below ten.
pub open spec fn digit(d: nat) -> char {
    if d == 0 {
        '0'
    } else if d == 1 {
        '1'
    } else if d == 2 {
        '2'
    } else if d == 3 {
        '3'
    } else if d == 4 {
        '4'
    } else if d == 5 {
        '5'
    } else if d == 6 {
        '6'
    } else if d == 7 {
        '7'
    } else if d == 8 {
        '8'
    } else {
        '9'
    }
}

/// `n` written in base ten, without leading zeros.
pub open spec fn decimal(n: nat) -> Seq<char>
    decreases n,
{
    if n < 10 {
        seq![digit(n)]
    } else {
        decimal(n / 10).push(digit(n % 10))
    }
}

/// What the standard `{:?}` formatting writes for a list of strings: a
/// name for a text that this library does not compute itself.
pub uninterp spec fn debug_rendering(items: Seq<Seq<char>>) -> Seq<char>;

/// The sentence that describes an error.
pub open spec fn message_text(e: ErrorView) -> Seq<char> {
    match e {
        ErrorView::EmptyInput => "No paths provided"@,
        ErrorView::MixedSeparators { found, expected } => "Mixed path separators found: "@
            + debug_rendering(found) + ", expected: "@ + expected,
        ErrorView::InvalidBraceInput { path, reason } => "Invalid braces input '"@ + path + "': "@
            + reason,
        ErrorView::DepthLimitExceeded { limit } => "Brace depth limit of "@ + decimal(limit as nat)
            + " exceeded"@,
    }
}

/// Taken on trust from the standard library: formats a list of strings
/// with the `{:?}` of `Vec<String>`. The contract claims only that the text
/// depends on nothing but the strings; it is known by the name
/// `debug_rendering` and by nothing else.
#[verifier::external_body]
fn debug_text(items: &Vec<String>) -> (s: String)
    ensures
        s@ == debug_rendering(texts(items@)),
{
    format!("{:?}", items)
}

/// The decimal digit for a number below ten.
fn digit_char(d: usize) -> (c: char)
    requires
        d < 10,
    ensures
        c == digit(d as nat),
{
    if d == 0 {
        '0'
    } else if d == 1 {
        '1'
    } else if d == 2 {
        '2'
    } else if d == 3 {
        '3'
    } else if d == 4 {
        '4'
    } else if d == 5 {
        '5'
    } else if d == 6 {
        '6'
    } else if d == 7 {
        '7'
    } else if d == 8 {
        '8'
    } else {
        '9'
    }
}

/// Writes a number in base ten.
pub fn decimal_text(n: usize) -> (s: String)
    ensures
        s@ == decimal(n as nat),
    decreases n,
{
    if n < 10 {
        let mut s = String::new();
        s.push(digit_char(n));
        assert(s@ =~= seq![digit(n as nat)]);
        s
    } else {
        let mut s = decimal_text(n / 10);
        s.push(digit_char(n % 10));
        s
    }
}

impl BraceError {
    /// The sentence that describes this error.
    pub fn message(&self) -> (s: String)
        ensures
            s@ == message_text(self@),
    {
        let mut s = String::new();
        match self {
            BraceError::EmptyInput => {
                s.append("No paths provided");
                assert(s@ =~= "No paths provided"@);
            },
            BraceError::MixedSeparators { found, expected } => {
                s.append("Mixed path separators found: ");
                let listed = debug_text(found);
                s.append(listed.as_str());
                s.append(", expected: ");
                s.append(expected.as_str());
                assert(s@ =~= message_text(self@));
            },
            BraceError::InvalidBraceInput { path, reason } => {
                s.append("Invalid braces input '");
                s.append(path.as_str());
                s.append("': ");
                s.append(reason.as_str());
                assert(s@ =~= message_text(self@));
            },
            BraceError::DepthLimitExceeded { limit } => {
                s.append("Brace depth limit of ");
                let number = decimal_text(*limit);
                s.append(number.as_str());
                s.append(" exceeded");
                assert(s@ =~= message_text(self@));
            },
        }
        s
    }
}

} // verus!
