//! What a reading rule reports: a value with the text left over, a request
//! for more text, or a refusal.

use vstd::prelude::*;

verus! {

/// Why a text can never become a datum, however it goes on.
#[derive(Debug, Clone, Copy, PartialEq, Eq, Structural)]
pub enum Reason {
    /// `#` is followed by a character that starts no `#` form.
    UnknownSharp,
    /// Inside a string literal a backslash is followed by a character that
    /// names no escape.
    BadEscape,
    /// A lone `.` stands where a symbol is read.
    ReservedDot,
    /// A number literal does not fit in 64 signed bits.
    NumberOutOfRange,
    /// The text does not begin as the rule requires.
    NoMatch,
}

impl View for Reason {
    type V = Reason;

    open spec fn view(&self) -> Reason {
        *self
    }
}

impl DeepView for Reason {
    type V = Reason;

    open spec fn deep_view(&self) -> Reason {
        *self
    }
}

/// The mathematical result of applying a rule to a text.
pub enum Outcome<T> {
    /// The rule read a value; the second field is the text after it.
    Complete(T, Seq<char>),
    /// The text ended before the rule could decide.
    Incomplete,
    /// No continuation of the text satisfies the rule.
    SyntaxError(Reason),
}

/// The result of applying a rule to a string slice.
#[derive(Debug, PartialEq, Eq)]
pub enum Parsed<'a, T> {
    /// The rule read a value; the second field is the text after it.
    Complete(T, &'a str),
    /// The text ended before the rule could decide.
    Incomplete,
    /// No continuation of the text satisfies the rule.
    SyntaxError(Reason),
}

impl<'a, T: DeepView> View for Parsed<'a, T> {
    type V = Outcome<T::V>;

    open spec fn view(&self) -> Outcome<T::V> {
        match *self {
            Parsed::Complete(value, rest) => Outcome::Complete(value.deep_view(), rest@),
            Parsed::Incomplete => Outcome::Incomplete,
            Parsed::SyntaxError(reason) => Outcome::SyntaxError(reason),
        }
    }
}

} // verus!
