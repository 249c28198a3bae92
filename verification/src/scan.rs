//! The recognisers of the `nom` crate that the reader is built on, each with
//! the rule of [`crate::token`] that it is taken to compute.
//!
//! Nothing in this file is proved: the contracts restate what the streaming
//! recognisers of `nom` do on a `&str`, and the reader's proofs rest on them.

use vstd::prelude::*;
use crate::outcome::{Parsed, Reason};
use crate::token;
use crate::token::{is_bin_digit, Class, Radix};

verus! {

/// `nom::character::streaming::char`: reads the character `c`. On an empty
/// text it asks for more; on another first character it fails.
#[verifier::external_body]
pub(crate) fn character<'a>(c: char, input: &'a str) -> (r: Parsed<'a, char>)
    ensures
        r@ == token::one(input@, c),
{
    match nom::character::streaming::char::<&str, nom::error::Error<&str>>(c)(input) {
        Ok((rest, found)) => Parsed::Complete(found, rest),
        Err(nom::Err::Incomplete(_)) => Parsed::Incomplete,
        Err(_) => Parsed::SyntaxError(Reason::NoMatch),
    }
}

/// `nom::character::streaming::anychar`: reads the first character, and asks
/// for more on an empty text.
#[verifier::external_body]
pub(crate) fn anychar<'a>(input: &'a str) -> (r: Parsed<'a, char>)
    ensures
        r@ == token::any(input@),
{
    match nom::character::streaming::anychar::<&str, nom::error::Error<&str>>(input) {
        Ok((rest, found)) => Parsed::Complete(found, rest),
        Err(nom::Err::Incomplete(_)) => Parsed::Incomplete,
        Err(_) => Parsed::SyntaxError(Reason::NoMatch),
    }
}

/// `nom::character::streaming::none_of`: reads the first character unless it
/// is one of those of `list`, and asks for more on an empty text.
#[verifier::external_body]
pub(crate) fn none_of<'a>(list: &str, input: &'a str) -> (r: Parsed<'a, char>)
    ensures
        r@ == token::none_of(input@, list@),
{
    match nom::character::streaming::none_of::<&str, &str, nom::error::Error<&str>>(list)(input) {
        Ok((rest, found)) => Parsed::Complete(found, rest),
        Err(nom::Err::Incomplete(_)) => Parsed::Incomplete,
        Err(_) => Parsed::SyntaxError(Reason::NoMatch),
    }
}

/// `nom::bytes::streaming::tag`: reads the word `word`. Where the text ends
/// inside the word it asks for more; at the first differing character it
/// fails.
#[verifier::external_body]
pub(crate) fn tag<'a>(word: &str, input: &'a str) -> (r: Parsed<'a, &'a str>)
    ensures
        r@ == token::tag(input@, word@),
{
    match nom::bytes::streaming::tag::<&str, &str, nom::error::Error<&str>>(word)(input) {
        Ok((rest, found)) => Parsed::Complete(found, rest),
        Err(nom::Err::Incomplete(_)) => Parsed::Incomplete,
        Err(_) => Parsed::SyntaxError(Reason::NoMatch),
    }
}

/// `nom::bytes::streaming::take_until`: reads up to the first occurrence of
/// `word`, which it leaves in the rest, and asks for more while `word` does
/// not occur.
#[verifier::external_body]
pub(crate) fn take_until<'a>(word: &str, input: &'a str) -> (r: Parsed<'a, &'a str>)
    ensures
        r@ == token::until(input@, word@),
{
    match nom::bytes::streaming::take_until::<&str, &str, nom::error::Error<&str>>(word)(input) {
        Ok((rest, found)) => Parsed::Complete(found, rest),
        Err(nom::Err::Incomplete(_)) => Parsed::Incomplete,
        Err(_) => Parsed::SyntaxError(Reason::NoMatch),
    }
}

/// `nom::character::streaming::line_ending`: reads a line feed, or a carriage
/// return followed by a line feed.
#[verifier::external_body]
pub(crate) fn line_ending<'a>(input: &'a str) -> (r: Parsed<'a, &'a str>)
    ensures
        r@ == token::line_end(input@),
{
    match nom::character::streaming::line_ending::<&str, nom::error::Error<&str>>(input) {
        Ok((rest, found)) => Parsed::Complete(found, rest),
        Err(nom::Err::Incomplete(_)) => Parsed::Incomplete,
        Err(_) => Parsed::SyntaxError(Reason::NoMatch),
    }
}

/// `nom::character::streaming::multispace0`: reads the spaces, tabs, carriage
/// returns and line feeds at the front, and asks for more where nothing else
/// follows them.
#[verifier::external_body]
pub(crate) fn multispace0<'a>(input: &'a str) -> (r: Parsed<'a, &'a str>)
    ensures
        r@ == token::many0(input@, Class::Blank),
{
    match nom::character::streaming::multispace0::<&str, nom::error::Error<&str>>(input) {
        Ok((rest, found)) => Parsed::Complete(found, rest),
        Err(nom::Err::Incomplete(_)) => Parsed::Incomplete,
        Err(_) => Parsed::SyntaxError(Reason::NoMatch),
    }
}

/// `nom::character::streaming::digit1`: reads the digits `0` to `9` at the
/// front, one at least, and asks for more where nothing else follows them.
#[verifier::external_body]
pub(crate) fn digit1<'a>(input: &'a str) -> (r: Parsed<'a, &'a str>)
    ensures
        r@ == token::many1(input@, Class::Digit(Radix::Decimal)),
{
    match nom::character::streaming::digit1::<&str, nom::error::Error<&str>>(input) {
        Ok((rest, found)) => Parsed::Complete(found, rest),
        Err(nom::Err::Incomplete(_)) => Parsed::Incomplete,
        Err(_) => Parsed::SyntaxError(Reason::NoMatch),
    }
}

/// `nom::character::streaming::oct_digit1`: as `digit1`, for `0` to `7`.
#[verifier::external_body]
pub(crate) fn oct_digit1<'a>(input: &'a str) -> (r: Parsed<'a, &'a str>)
    ensures
        r@ == token::many1(input@, Class::Digit(Radix::Octal)),
{
    match nom::character::streaming::oct_digit1::<&str, nom::error::Error<&str>>(input) {
        Ok((rest, found)) => Parsed::Complete(found, rest),
        Err(nom::Err::Incomplete(_)) => Parsed::Incomplete,
        Err(_) => Parsed::SyntaxError(Reason::NoMatch),
    }
}

/// `nom::character::streaming::hex_digit1`: as `digit1`, for `0` to `9`, `a`
/// to `f` and `A` to `F`.
#[verifier::external_body]
pub(crate) fn hex_digit1<'a>(input: &'a str) -> (r: Parsed<'a, &'a str>)
    ensures
        r@ == token::many1(input@, Class::Digit(Radix::Hex)),
{
    match nom::character::streaming::hex_digit1::<&str, nom::error::Error<&str>>(input) {
        Ok((rest, found)) => Parsed::Complete(found, rest),
        Err(nom::Err::Incomplete(_)) => Parsed::Incomplete,
        Err(_) => Parsed::SyntaxError(Reason::NoMatch),
    }
}

/// `nom::bytes::streaming::take_while1` with [`is_bin_digit`] as its test:
/// reads the digits `0` and `1` at the front, one at least, and asks for more
/// where nothing else follows them.
#[verifier::external_body]
pub(crate) fn take_while1_bin<'a>(input: &'a str) -> (r: Parsed<'a, &'a str>)
    ensures
        r@ == token::many1(input@, Class::Digit(Radix::Binary)),
{
    match nom::bytes::streaming::take_while1::<_, &str, nom::error::Error<&str>>(
        |c: char| is_bin_digit(c),
    )(input) {
        Ok((rest, found)) => Parsed::Complete(found, rest),
        Err(nom::Err::Incomplete(_)) => Parsed::Incomplete,
        Err(_) => Parsed::SyntaxError(Reason::NoMatch),
    }
}

/// `String::push` appends one character.
pub assume_specification[ String::push ](s: &mut String, c: char)
    ensures
        final(s)@ == old(s)@.push(c),
;

} // verus!
