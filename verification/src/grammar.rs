//! The grammar of the reader as mathematical functions from a text to an
//! [`Outcome`].
//!
//! Each rule looks only at the front of its text. It is `Complete` with the
//! value read and the text that follows it, `Incomplete` where the text ends
//! while the construct is still open, and a `SyntaxError` where no further
//! text could mend it. The functions of [`crate::reader`] compute these rules.
//!
//! A rule that reads on after a datum first asks that the datum has used up
//! some of the text. It always has ([`crate::progress`]); the question only
//! shows that the rules, which call each other, are well defined.

use vstd::prelude::*;
use crate::data::Datum;
use crate::outcome::{Outcome, Reason};
use crate::token;
use crate::token::{Class, Radix};

verus! {

/// The symbol that a quote mark stands for.
pub open spec fn quote_word() -> Seq<char> {
    seq!['q', 'u', 'o', 't', 'e']
}

/// The two-element list `(quote d)`.
pub open spec fn quoted(d: Datum) -> Datum {
    Datum::Cons(
        Box::new(Datum::Symbol(quote_word())),
        Box::new(Datum::Cons(Box::new(d), Box::new(Datum::Nil))),
    )
}

/// One character of a symbol.
pub open spec fn lisptoken(s: Seq<char>) -> Outcome<char> {
    if s.len() == 0 {
        Outcome::Incomplete
    } else if token::is_token(s[0]) {
        Outcome::Complete(s[0], s.skip(1))
    } else {
        Outcome::SyntaxError(Reason::NoMatch)
    }
}

/// A symbol: the longest run of symbol characters, which something must
/// follow. The run that is a single `.` is no symbol.
#[verifier::opaque]
pub open spec fn symbol(s: Seq<char>) -> Outcome<Datum> {
    match token::many1(s, Class::Token) {
        Outcome::Complete(name, rest) => if name == seq!['.'] {
            Outcome::SyntaxError(Reason::ReservedDot)
        } else {
            Outcome::Complete(Datum::Symbol(name), rest)
        },
        Outcome::Incomplete => Outcome::Incomplete,
        Outcome::SyntaxError(reason) => Outcome::SyntaxError(reason),
    }
}

/// The number that the digits `s` spell in base `radix`, read from the left.
pub open spec fn digits_value(s: Seq<char>, radix: Radix) -> nat
    decreases s.len(),
{
    if s.len() == 0 {
        0
    } else {
        (digits_value(s.drop_last(), radix) * radix.base() + token::digit_value(s.last())) as nat
    }
}

/// The number of magnitude `magnitude`, below zero where `negative`.
pub open spec fn signed(magnitude: nat, negative: bool) -> int {
    if negative {
        -(magnitude as int)
    } else {
        magnitude as int
    }
}

/// `value` as an `i64`, where it is in the range of one.
pub open spec fn in_range(value: int) -> Option<i64> {
    if i64::MIN <= value <= i64::MAX {
        Some(value as i64)
    } else {
        None
    }
}

/// A number literal in base `radix`: an optional `-`, then the longest run of
/// digits, which something must follow. A value outside the range of `i64` is
/// an error.
#[verifier::opaque]
pub open spec fn parse_num(s: Seq<char>, radix: Radix) -> Outcome<Datum> {
    if s.len() == 0 {
        Outcome::Incomplete
    } else {
        let negative = s[0] == '-';
        let body = if negative {
            s.skip(1)
        } else {
            s
        };
        match token::many1(body, Class::Digit(radix)) {
            Outcome::Complete(digits, rest) => match in_range(
                signed(digits_value(digits, radix), negative),
            ) {
                Some(n) => Outcome::Complete(Datum::Num(n), rest),
                None => Outcome::SyntaxError(Reason::NumberOutOfRange),
            },
            Outcome::Incomplete => Outcome::Incomplete,
            Outcome::SyntaxError(reason) => Outcome::SyntaxError(reason),
        }
    }
}

/// A number literal in base ten.
pub open spec fn num(s: Seq<char>) -> Outcome<Datum> {
    parse_num(s, Radix::Decimal)
}

/// The character that the escape `\c` stands for, if it stands for one.
pub open spec fn unescape(c: char) -> Option<char> {
    if c == 'a' {
        Some('\x07')
    } else if c == 'b' {
        Some('\x08')
    } else if c == 'n' {
        Some('\n')
    } else if c == 'r' {
        Some('\r')
    } else if c == 't' {
        Some('\t')
    } else if c == '"' {
        Some('"')
    } else if c == '\\' {
        Some('\\')
    } else if c == '|' {
        Some('|')
    } else {
        None
    }
}

/// An escape inside a string literal: a backslash and the character that
/// names the escape.
pub open spec fn escaped_char(s: Seq<char>) -> Outcome<char> {
    if s.len() == 0 {
        Outcome::Incomplete
    } else if s[0] != '\\' {
        Outcome::SyntaxError(Reason::NoMatch)
    } else if s.len() < 2 {
        Outcome::Incomplete
    } else {
        match unescape(s[1]) {
            Some(c) => Outcome::Complete(c, s.skip(2)),
            None => Outcome::SyntaxError(Reason::BadEscape),
        }
    }
}

/// The characters of a string literal after its opening quote, up to and
/// with the closing quote.
pub open spec fn string_rest(s: Seq<char>) -> Outcome<Seq<char>>
    decreases s.len(),
{
    if s.len() == 0 {
        Outcome::Incomplete
    } else if s[0] == '"' {
        Outcome::Complete(Seq::empty(), s.skip(1))
    } else if s[0] == '\\' {
        match escaped_char(s) {
            Outcome::Complete(c, rest) => match string_rest(rest) {
                Outcome::Complete(more, after) => Outcome::Complete(seq![c] + more, after),
                other => other,
            },
            Outcome::Incomplete => Outcome::Incomplete,
            Outcome::SyntaxError(reason) => Outcome::SyntaxError(reason),
        }
    } else {
        match string_rest(s.skip(1)) {
            Outcome::Complete(more, after) => Outcome::Complete(seq![s[0]] + more, after),
            other => other,
        }
    }
}

/// A string literal between double quotes.
#[verifier::opaque]
pub open spec fn string(s: Seq<char>) -> Outcome<Datum> {
    match token::one(s, '"') {
        Outcome::Complete(_, rest) => match string_rest(rest) {
            Outcome::Complete(text, after) => Outcome::Complete(Datum::LispString(text), after),
            Outcome::Incomplete => Outcome::Incomplete,
            Outcome::SyntaxError(reason) => Outcome::SyntaxError(reason),
        },
        Outcome::Incomplete => Outcome::Incomplete,
        Outcome::SyntaxError(reason) => Outcome::SyntaxError(reason),
    }
}

/// A block comment: `#|`, then everything up to the first `|#`, and that.
#[verifier::opaque]
pub open spec fn block_comment(s: Seq<char>) -> Outcome<()> {
    match token::tag(s, seq!['#', '|']) {
        Outcome::Complete(_, inside) => match token::until(inside, seq!['|', '#']) {
            Outcome::Complete(_, close) => match token::tag(close, seq!['|', '#']) {
                Outcome::Complete(_, rest) => Outcome::Complete((), rest),
                Outcome::Incomplete => Outcome::Incomplete,
                Outcome::SyntaxError(reason) => Outcome::SyntaxError(reason),
            },
            Outcome::Incomplete => Outcome::Incomplete,
            Outcome::SyntaxError(reason) => Outcome::SyntaxError(reason),
        },
        Outcome::Incomplete => Outcome::Incomplete,
        Outcome::SyntaxError(reason) => Outcome::SyntaxError(reason),
    }
}

/// A line comment: `;`, then everything up to the first line feed, and that.
#[verifier::opaque]
pub open spec fn line_comment(s: Seq<char>) -> Outcome<()> {
    match token::one(s, ';') {
        Outcome::Complete(_, inside) => match token::until(inside, seq!['\n']) {
            Outcome::Complete(_, close) => match token::line_end(close) {
                Outcome::Complete(_, rest) => Outcome::Complete((), rest),
                Outcome::Incomplete => Outcome::Incomplete,
                Outcome::SyntaxError(reason) => Outcome::SyntaxError(reason),
            },
            Outcome::Incomplete => Outcome::Incomplete,
            Outcome::SyntaxError(reason) => Outcome::SyntaxError(reason),
        },
        Outcome::Incomplete => Outcome::Incomplete,
        Outcome::SyntaxError(reason) => Outcome::SyntaxError(reason),
    }
}

/// Any datum after blanks. Which rule reads it is decided by its first
/// characters, the rules taken in this order: quote, list, comment, `#` form,
/// number, string, symbol.
pub open spec fn lisp_data(s: Seq<char>) -> Outcome<Datum>
    decreases s.len(), 5int,
{
    let blanks = token::run(s, Class::Blank);
    if blanks >= s.len() {
        Outcome::Incomplete
    } else {
        form(s.skip(blanks as int))
    }
}

/// Any datum that begins with the first character of `s`.
pub open spec fn form(s: Seq<char>) -> Outcome<Datum>
    decreases s.len(), 4int,
{
    if s.len() == 0 {
        Outcome::Incomplete
    } else if s[0] == '\'' {
        quote(s)
    } else if s[0] == '(' {
        cons(s)
    } else if s[0] == ';' {
        comment(s)
    } else if s[0] == '#' {
        if s.len() < 2 {
            Outcome::Incomplete
        } else if s[1] == '|' || s[1] == ';' {
            comment(s)
        } else {
            sharp(s)
        }
    } else if s[0] == '"' {
        string(s)
    } else {
        match num(s) {
            Outcome::SyntaxError(Reason::NoMatch) => symbol(s),
            number => number,
        }
    }
}

/// A quote mark and the datum it quotes, read as the list `(quote d)`.
pub open spec fn quote(s: Seq<char>) -> Outcome<Datum>
    decreases s.len(), 3int,
{
    if s.len() == 0 {
        Outcome::Incomplete
    } else if s[0] != '\'' {
        Outcome::SyntaxError(Reason::NoMatch)
    } else {
        match lisp_data(s.skip(1)) {
            Outcome::Complete(d, rest) => Outcome::Complete(quoted(d), rest),
            Outcome::Incomplete => Outcome::Incomplete,
            Outcome::SyntaxError(reason) => Outcome::SyntaxError(reason),
        }
    }
}

/// The list of `items` that ends in `last`: the items folded from the right
/// into pairs.
pub open spec fn chain(items: Seq<Datum>, last: Datum) -> Datum
    decreases items.len(),
{
    if items.len() == 0 {
        last
    } else {
        Datum::Cons(Box::new(items[0]), Box::new(chain(items.skip(1), last)))
    }
}

/// The elements of a list or a vector: blanks and a datum, as often as a
/// datum can be read. It stops after the blanks in front of what is no datum,
/// and gives the elements with the reason why that is none.
pub open spec fn many0_data(s: Seq<char>) -> Outcome<(Seq<Datum>, Reason)>
    decreases s.len(), 6int,
{
    let blanks = token::run(s, Class::Blank);
    if blanks >= s.len() {
        Outcome::Incomplete
    } else {
        let here = s.skip(blanks as int);
        match lisp_data(here) {
            Outcome::Complete(first, after) => if after.len() < here.len() {
                match many0_data(after) {
                    Outcome::Complete((more, why), stop) => Outcome::Complete(
                        (seq![first] + more, why),
                        stop,
                    ),
                    Outcome::Incomplete => Outcome::Incomplete,
                    Outcome::SyntaxError(reason) => Outcome::SyntaxError(reason),
                }
            } else {
                Outcome::SyntaxError(Reason::NoMatch)
            },
            Outcome::Incomplete => Outcome::Incomplete,
            Outcome::SyntaxError(why) => Outcome::Complete((Seq::empty(), why), here),
        }
    }
}

/// What follows the lone `.` of a list: the last datum, blanks and `)`.
pub open spec fn dotted_tail(s: Seq<char>) -> Outcome<Datum>
    decreases s.len(), 6int,
{
    match lisp_data(s) {
        Outcome::Complete(last, after) => match token::many0(after, Class::Blank) {
            Outcome::Complete(_, close) => match token::one(close, ')') {
                Outcome::Complete(_, end) => Outcome::Complete(last, end),
                Outcome::Incomplete => Outcome::Incomplete,
                Outcome::SyntaxError(reason) => Outcome::SyntaxError(reason),
            },
            Outcome::Incomplete => Outcome::Incomplete,
            Outcome::SyntaxError(reason) => Outcome::SyntaxError(reason),
        },
        Outcome::Incomplete => Outcome::Incomplete,
        Outcome::SyntaxError(reason) => Outcome::SyntaxError(reason),
    }
}

/// A list: `(`, the elements, and then either `)`, for the chain of the
/// elements that ends in `Nil`, or a lone `.`, the last datum and `)`, for the
/// chain that ends in that datum. What stands there instead is reported with
/// the reason why it is no datum.
pub open spec fn cons(s: Seq<char>) -> Outcome<Datum>
    decreases s.len(), 3int,
{
    if s.len() == 0 {
        Outcome::Incomplete
    } else if s[0] != '(' {
        Outcome::SyntaxError(Reason::NoMatch)
    } else {
        match many0_data(s.skip(1)) {
            Outcome::Complete((items, why), stop) => if 0 < stop.len() < s.len() {
                if stop[0] == ')' {
                    Outcome::Complete(chain(items, Datum::Nil), stop.skip(1))
                } else if stop[0] == '.' {
                    match dotted_tail(stop.skip(1)) {
                        Outcome::Complete(last, end) => Outcome::Complete(chain(items, last), end),
                        Outcome::Incomplete => Outcome::Incomplete,
                        Outcome::SyntaxError(reason) => Outcome::SyntaxError(reason),
                    }
                } else {
                    Outcome::SyntaxError(why)
                }
            } else {
                Outcome::SyntaxError(Reason::NoMatch)
            },
            Outcome::Incomplete => Outcome::Incomplete,
            Outcome::SyntaxError(reason) => Outcome::SyntaxError(reason),
        }
    }
}

/// What follows `#(`: the elements and `)`.
pub open spec fn vector_rest(s: Seq<char>) -> Outcome<Datum>
    decreases s.len(), 7int,
{
    match many0_data(s) {
        Outcome::Complete((items, why), stop) => if stop.len() > 0 && stop[0] == ')' {
            Outcome::Complete(Datum::Vector(items), stop.skip(1))
        } else {
            Outcome::SyntaxError(why)
        },
        Outcome::Incomplete => Outcome::Incomplete,
        Outcome::SyntaxError(reason) => Outcome::SyntaxError(reason),
    }
}

/// A `#` form: `#f` and `#t`, a number with its base (`#b`, `#o`, `#d`,
/// `#x`), or a vector `#(`...`)`. The letters count in either case.
pub open spec fn sharp(s: Seq<char>) -> Outcome<Datum>
    decreases s.len(), 3int,
{
    if s.len() == 0 {
        Outcome::Incomplete
    } else if s[0] != '#' {
        Outcome::SyntaxError(Reason::NoMatch)
    } else if s.len() < 2 {
        Outcome::Incomplete
    } else {
        let c = s[1];
        let rest = s.skip(2);
        if c == 'f' || c == 'F' {
            Outcome::Complete(Datum::Bool(false), rest)
        } else if c == 't' || c == 'T' {
            Outcome::Complete(Datum::Bool(true), rest)
        } else if c == 'b' || c == 'B' {
            parse_num(rest, Radix::Binary)
        } else if c == 'o' || c == 'O' {
            parse_num(rest, Radix::Octal)
        } else if c == 'd' || c == 'D' {
            num(rest)
        } else if c == 'x' || c == 'X' {
            parse_num(rest, Radix::Hex)
        } else if c == '(' {
            vector_rest(rest)
        } else {
            Outcome::SyntaxError(Reason::UnknownSharp)
        }
    }
}

/// A datum comment: `#;` and one datum, which is dropped.
pub open spec fn datum_comment(s: Seq<char>) -> Outcome<()>
    decreases s.len(), 1int,
{
    match token::tag(s, seq!['#', ';']) {
        Outcome::Complete(_, inside) => match lisp_data(inside) {
            Outcome::Complete(_, rest) => Outcome::Complete((), rest),
            Outcome::Incomplete => Outcome::Incomplete,
            Outcome::SyntaxError(reason) => Outcome::SyntaxError(reason),
        },
        Outcome::Incomplete => Outcome::Incomplete,
        Outcome::SyntaxError(reason) => Outcome::SyntaxError(reason),
    }
}

/// One comment of any of the three kinds: block, line, datum.
pub open spec fn any_comment(s: Seq<char>) -> Outcome<()>
    decreases s.len(), 2int,
{
    match block_comment(s) {
        Outcome::SyntaxError(_) => match line_comment(s) {
            Outcome::SyntaxError(_) => datum_comment(s),
            line => line,
        },
        block => block,
    }
}

/// A comment and the datum after it: a comment is never a value itself.
pub open spec fn comment(s: Seq<char>) -> Outcome<Datum>
    decreases s.len(), 3int,
{
    match any_comment(s) {
        Outcome::Complete(_, rest) => if rest.len() < s.len() {
            lisp_data(rest)
        } else {
            Outcome::SyntaxError(Reason::NoMatch)
        },
        Outcome::Incomplete => Outcome::Incomplete,
        Outcome::SyntaxError(reason) => Outcome::SyntaxError(reason),
    }
}

} // verus!
