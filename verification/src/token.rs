//! The smallest rules of the grammar: single characters, fixed words and
//! runs of characters of one class, each stated on a sequence of characters.
//!
//! Every rule is written for text that may still grow: where the text ends
//! before the rule can tell, the outcome is `Incomplete`.

use vstd::prelude::*;
use crate::outcome::{Outcome, Reason};

verus! {

/// The base of a number literal.
#[derive(Debug, Clone, Copy, PartialEq, Eq, Structural)]
pub enum Radix {
    Binary,
    Octal,
    Decimal,
    Hex,
}

impl Radix {
    pub open spec fn base(self) -> int {
        match self {
            Radix::Binary => 2,
            Radix::Octal => 8,
            Radix::Decimal => 10,
            Radix::Hex => 16,
        }
    }
}

/// A set of characters that a run is made of.
pub enum Class {
    /// Space, tab, carriage return and line feed.
    Blank,
    /// Every character that may stand in a symbol.
    Token,
    /// The digits of a base; in base sixteen the letters in either case.
    Digit(Radix),
}

pub open spec fn is_blank(c: char) -> bool {
    c == ' ' || c == '\t' || c == '\r' || c == '\n'
}

/// A symbol ends at a blank, a quote mark, a parenthesis, `#` or a double
/// quote; every other character belongs to it.
pub open spec fn is_token(c: char) -> bool {
    !(is_blank(c) || c == '\'' || c == '(' || c == ')' || c == '#' || c == '"')
}

/// The value of `c` as a digit, or `-1` where it is none in any base.
pub open spec fn digit_value(c: char) -> int {
    if '0' <= c <= '9' {
        c as int - '0' as int
    } else if 'a' <= c <= 'f' {
        c as int - 'a' as int + 10
    } else if 'A' <= c <= 'F' {
        c as int - 'A' as int + 10
    } else {
        -1
    }
}

pub open spec fn is_digit(c: char, radix: Radix) -> bool {
    0 <= digit_value(c) < radix.base()
}

/// Whether `c` is `0` or `1`.
pub fn is_bin_digit(c: char) -> (b: bool)
    ensures
        b == is_digit(c, Radix::Binary),
{
    c == '0' || c == '1'
}

impl Class {
    pub open spec fn has(self, c: char) -> bool {
        match self {
            Class::Blank => is_blank(c),
            Class::Token => is_token(c),
            Class::Digit(radix) => is_digit(c, radix),
        }
    }
}

/// The number of characters at the front of `s` that belong to `class`.
pub open spec fn run(s: Seq<char>, class: Class) -> nat
    decreases s.len(),
{
    if s.len() > 0 && class.has(s[0]) {
        1 + run(s.skip(1), class)
    } else {
        0
    }
}

/// The longest run of `class` at the front of `s`, which may be empty. A run
/// that reaches the end of the text may still grow.
pub open spec fn many0(s: Seq<char>, class: Class) -> Outcome<Seq<char>> {
    let n = run(s, class) as int;
    if n == s.len() {
        Outcome::Incomplete
    } else {
        Outcome::Complete(s.take(n), s.skip(n))
    }
}

/// The longest run of `class` at the front of `s`, of one character at least.
pub open spec fn many1(s: Seq<char>, class: Class) -> Outcome<Seq<char>> {
    let n = run(s, class) as int;
    if n == s.len() {
        Outcome::Incomplete
    } else if n == 0 {
        Outcome::SyntaxError(Reason::NoMatch)
    } else {
        Outcome::Complete(s.take(n), s.skip(n))
    }
}

/// The first character of `s`, whatever it is.
pub open spec fn any(s: Seq<char>) -> Outcome<char> {
    if s.len() == 0 {
        Outcome::Incomplete
    } else {
        Outcome::Complete(s[0], s.skip(1))
    }
}

/// The character `c` at the front of `s`.
pub open spec fn one(s: Seq<char>, c: char) -> Outcome<char> {
    if s.len() == 0 {
        Outcome::Incomplete
    } else if s[0] == c {
        Outcome::Complete(c, s.skip(1))
    } else {
        Outcome::SyntaxError(Reason::NoMatch)
    }
}

/// The first character of `s`, unless it occurs in `list`.
pub open spec fn none_of(s: Seq<char>, list: Seq<char>) -> Outcome<char> {
    if s.len() == 0 {
        Outcome::Incomplete
    } else if list.contains(s[0]) {
        Outcome::SyntaxError(Reason::NoMatch)
    } else {
        Outcome::Complete(s[0], s.skip(1))
    }
}

/// The word `t` at the front of `s`. A text that is a beginning of `t` may
/// still grow into it.
pub open spec fn tag(s: Seq<char>, t: Seq<char>) -> Outcome<Seq<char>> {
    if t.is_prefix_of(s) {
        Outcome::Complete(t, s.skip(t.len() as int))
    } else if s.is_prefix_of(t) {
        Outcome::Incomplete
    } else {
        Outcome::SyntaxError(Reason::NoMatch)
    }
}

/// The place where `t` first occurs in `s`, or `-1` where it does not occur.
pub open spec fn find(s: Seq<char>, t: Seq<char>) -> int
    decreases s.len(),
{
    if s.len() < t.len() {
        -1
    } else if t.is_prefix_of(s) {
        0
    } else {
        let later = find(s.skip(1), t);
        if later < 0 {
            -1
        } else {
            later + 1
        }
    }
}

/// The text before the first occurrence of `t`, which stays in the rest.
pub open spec fn until(s: Seq<char>, t: Seq<char>) -> Outcome<Seq<char>> {
    let at = find(s, t);
    if at < 0 {
        Outcome::Incomplete
    } else {
        Outcome::Complete(s.take(at), s.skip(at))
    }
}

/// A line feed, or a carriage return and a line feed.
pub open spec fn line_end(s: Seq<char>) -> Outcome<Seq<char>> {
    match tag(s, seq!['\n']) {
        Outcome::SyntaxError(_) => tag(s, seq!['\r', '\n']),
        found => found,
    }
}

/// `rest` is what is left of `s` after some of its characters, maybe none.
pub open spec fn is_rest_of(rest: Seq<char>, s: Seq<char>) -> bool {
    rest.len() <= s.len() && rest == s.skip(s.len() - rest.len())
}

/// Where `outcome` has a value, its rest is what is left of `s` after one
/// character at least.
pub open spec fn advances<T>(outcome: Outcome<T>, s: Seq<char>) -> bool {
    outcome matches Outcome::Complete(_, rest) ==> rest.len() < s.len() && is_rest_of(rest, s)
}

/// A run is no longer than its text, holds only characters of its class, and
/// ends in front of a character that is not of the class.
pub(crate) proof fn lemma_run(s: Seq<char>, class: Class)
    ensures
        run(s, class) <= s.len(),
        forall|i: int| 0 <= i < run(s, class) ==> class.has(#[trigger] s[i]),
        run(s, class) < s.len() ==> !class.has(s[run(s, class) as int]),
    decreases s.len(),
{
    if s.len() > 0 && class.has(s[0]) {
        lemma_run(s.skip(1), class);
        assert forall|i: int| 0 <= i < run(s, class) implies class.has(#[trigger] s[i]) by {
            if i > 0 {
                assert(s[i] == s.skip(1)[i - 1]);
            }
        }
    }
}

/// A run is exactly as long as the characters of its class that stand in
/// front of one that is not.
pub(crate) proof fn lemma_run_exact(s: Seq<char>, class: Class, n: int)
    requires
        0 <= n < s.len(),
        forall|i: int| 0 <= i < n ==> class.has(#[trigger] s[i]),
        !class.has(s[n]),
    ensures
        run(s, class) == n,
    decreases n,
{
    if n > 0 {
        assert(class.has(s[0]));
        assert forall|i: int| 0 <= i < n - 1 implies class.has(#[trigger] s.skip(1)[i]) by {
            assert(s.skip(1)[i] == s[i + 1]);
        }
        lemma_run_exact(s.skip(1), class, n - 1);
    }
}

/// What is left of a rest is left of the whole.
pub(crate) proof fn lemma_rest_of_rest(a: Seq<char>, b: Seq<char>, c: Seq<char>)
    requires
        is_rest_of(a, b),
        is_rest_of(b, c),
    ensures
        is_rest_of(a, c),
{
    assert(a =~= c.skip(c.len() - a.len()));
}

} // verus!
