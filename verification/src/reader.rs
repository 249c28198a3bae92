//! The reader: each rule of [`crate::grammar`] as a function on a string
//! slice, proved to compute that rule.

use vstd::prelude::*;
use vstd::std_specs::iter::IteratorSpec;
use crate::data::{models, Datum, LispData};
use crate::progress::{lemma_any_comment_advances, lemma_lisp_data_advances, lemma_many0_data_stops};
use crate::grammar;
use crate::outcome::{Outcome, Parsed, Reason};
use crate::scan;
use crate::token;
use crate::token::{Class, Radix};

verus! {

/// Reads one character of a symbol.
pub fn lisptoken<'a>(input: &'a str) -> (r: Parsed<'a, char>)
    ensures
        r@ == grammar::lisptoken(input@),
{
    let list = "'()# \"\r\n\t";
    proof {
        reveal_strlit("'()# \"\r\n\t");
        if input@.len() > 0 {
            let c = input@[0];
            if !token::is_token(c) {
                let at: int = if c == '\'' {
                    0
                } else if c == '(' {
                    1
                } else if c == ')' {
                    2
                } else if c == '#' {
                    3
                } else if c == ' ' {
                    4
                } else if c == '"' {
                    5
                } else if c == '\r' {
                    6
                } else if c == '\n' {
                    7
                } else {
                    8
                };
                assert(list@[at] == c);
            }
        }
    }
    scan::none_of(list, input)
}

/// Reads a symbol.
pub fn symbol<'a>(input: &'a str) -> (r: Parsed<'a, LispData>)
    ensures
        r@ == grammar::symbol(input@),
{
    proof {
        reveal(grammar::symbol);
    }
    let mut name = String::new();
    let mut rest = input;
    let mut single_dot = false;
    let mut empty = true;
    loop
        invariant
            name@ + rest@ == input@,
            token::run(input@, Class::Token) == name@.len() + token::run(rest@, Class::Token),
            empty == (name@.len() == 0),
            single_dot == (name@ == seq!['.']),
        ensures
            name@ + rest@ == input@,
            token::run(input@, Class::Token) == name@.len(),
            name@.len() < input@.len(),
            empty == (name@.len() == 0),
            single_dot == (name@ == seq!['.']),
        decreases rest@.len(),
    {
        match lisptoken(rest) {
            Parsed::Complete(c, after) => {
                proof {
                    assert(name@.push(c) + after@ =~= name@ + rest@);
                    if empty {
                        assert(name@.push(c) =~= seq![c]);
                        assert(seq![c][0] == c);
                    } else {
                        assert(name@.push(c).len() != 1);
                    }
                }
                single_dot = empty && c == '.';
                empty = false;
                name.push(c);
                rest = after;
            },
            Parsed::Incomplete => {
                proof {
                    reveal(grammar::symbol);
                }
                return Parsed::Incomplete;
            },
            Parsed::SyntaxError(_) => {
                break ;
            },
        }
    }
    proof {
        assert(input@.take(name@.len() as int) =~= name@);
        assert(input@.skip(name@.len() as int) =~= rest@);
    }
    if empty {
        Parsed::SyntaxError(Reason::NoMatch)
    } else if single_dot {
        Parsed::SyntaxError(Reason::ReservedDot)
    } else {
        Parsed::Complete(LispData::Symbol(name), rest)
    }
}

/// Reads a run of the digits `0` and `1`.
pub fn bin_digit1<'a>(input: &'a str) -> (r: Parsed<'a, &'a str>)
    ensures
        r@ == token::many1(input@, Class::Digit(Radix::Binary)),
{
    scan::take_while1_bin(input)
}

/// The digits of a prefix spell no more than the digits of the whole.
proof fn lemma_digits_value_grows(s: Seq<char>, radix: Radix, k: int)
    requires
        0 <= k <= s.len(),
        forall|i: int| 0 <= i < s.len() ==> token::is_digit(#[trigger] s[i], radix),
    ensures
        grammar::digits_value(s.take(k), radix) <= grammar::digits_value(s, radix),
    decreases s.len() - k,
{
    if k < s.len() {
        lemma_digits_value_grows(s, radix, k + 1);
        let longer = s.take(k + 1);
        assert(longer.drop_last() =~= s.take(k));
        assert(longer.last() == s[k]);
        let shorter = grammar::digits_value(s.take(k), radix);
        assert(shorter * radix.base() >= shorter) by (nonlinear_arith)
            requires
                shorter >= 0,
                radix.base() >= 1,
        ;
    } else {
        assert(s.take(k) =~= s);
    }
}

/// The value of the digit `c`.
fn digit_of(c: char) -> (d: u64)
    requires
        token::digit_value(c) >= 0,
    ensures
        d == token::digit_value(c),
{
    if c >= '0' && c <= '9' {
        (c as u64) - 48
    } else if c >= 'a' && c <= 'f' {
        (c as u64) - 87
    } else {
        (c as u64) - 55
    }
}

/// The signed value of a run of digits, where it fits in an `i64`.
fn to_integer(digits: &str, radix: Radix, negative: bool) -> (r: Option<i64>)
    requires
        forall|i: int| 0 <= i < digits@.len() ==> token::is_digit(#[trigger] digits@[i], radix),
    ensures
        r == grammar::in_range(grammar::signed(grammar::digits_value(digits@, radix), negative)),
{
    let base: u64 = match radix {
        Radix::Binary => 2,
        Radix::Octal => 8,
        Radix::Decimal => 10,
        Radix::Hex => 16,
    };
    let limit: u64 = if negative {
        9223372036854775808
    } else {
        9223372036854775807
    };
    let mut acc: u64 = 0;
    let mut it = digits.chars();
    let ghost mut k: int = 0;
    loop
        invariant
            it.obeys_prophetic_iter_laws(),
            it.decrease() is Some,
            0 <= k <= digits@.len(),
            it.remaining() == digits@.skip(k),
            acc == grammar::digits_value(digits@.take(k), radix),
            acc <= limit,
            base == radix.base(),
            limit == (if negative {
                9223372036854775808u64
            } else {
                9223372036854775807u64
            }),
            forall|i: int| 0 <= i < digits@.len() ==> token::is_digit(#[trigger] digits@[i], radix),
        ensures
            acc == grammar::digits_value(digits@, radix),
            acc <= limit,
        decreases it.decrease()->0,
    {
        match it.next() {
            Some(c) => {
                assert(c == digits@[k]);
                let d = digit_of(c);
                assert(acc * base <= 9223372036854775808 * 16) by (nonlinear_arith)
                    requires
                        0 <= acc <= 9223372036854775808,
                        0 <= base <= 16,
                ;
                let next: u128 = (acc as u128) * (base as u128) + (d as u128);
                proof {
                    assert(digits@.take(k + 1).drop_last() =~= digits@.take(k));
                    assert(digits@.take(k + 1).last() == c);
                    assert(digits@.skip(k).drop_first() =~= digits@.skip(k + 1));
                    assert(next == grammar::digits_value(digits@.take(k + 1), radix));
                }
                if next > limit as u128 {
                    proof {
                        lemma_digits_value_grows(digits@, radix, k + 1);
                    }
                    return None;
                }
                acc = next as u64;
                proof {
                    k = k + 1;
                }
            },
            None => {
                proof {
                    assert(digits@.take(k) =~= digits@);
                }
                break ;
            },
        }
    }
    if !negative {
        Some(acc as i64)
    } else if acc == 9223372036854775808 {
        Some(i64::MIN)
    } else {
        Some(-(acc as i64))
    }
}

/// Reads a number literal in base `radix`.
pub fn parse_num<'a>(input: &'a str, radix: Radix) -> (r: Parsed<'a, LispData>)
    ensures
        r@ == grammar::parse_num(input@, radix),
{
    proof {
        reveal(grammar::parse_num);
    }
    let (negative, body) = match scan::character('-', input) {
        Parsed::Complete(_, rest) => (true, rest),
        Parsed::Incomplete => {
            return Parsed::Incomplete;
        },
        Parsed::SyntaxError(_) => (false, input),
    };
    let found = match radix {
        Radix::Binary => bin_digit1(body),
        Radix::Octal => scan::oct_digit1(body),
        Radix::Decimal => scan::digit1(body),
        Radix::Hex => scan::hex_digit1(body),
    };
    match found {
        Parsed::Complete(digits, rest) => {
            proof {
                token::lemma_run(body@, Class::Digit(radix));
            }
            match to_integer(digits, radix, negative) {
                Some(n) => Parsed::Complete(LispData::Num(n), rest),
                None => Parsed::SyntaxError(Reason::NumberOutOfRange),
            }
        },
        Parsed::Incomplete => Parsed::Incomplete,
        Parsed::SyntaxError(reason) => Parsed::SyntaxError(reason),
    }
}

/// Reads a number literal in base ten.
pub fn num<'a>(input: &'a str) -> (r: Parsed<'a, LispData>)
    ensures
        r@ == grammar::num(input@),
{
    parse_num(input, Radix::Decimal)
}

/// Reads an escape of a string literal.
pub fn escaped_char<'a>(input: &'a str) -> (r: Parsed<'a, char>)
    ensures
        r@ == grammar::escaped_char(input@),
{
    let rest = match scan::character('\\', input) {
        Parsed::Complete(_, rest) => rest,
        Parsed::Incomplete => {
            return Parsed::Incomplete;
        },
        Parsed::SyntaxError(reason) => {
            return Parsed::SyntaxError(reason);
        },
    };
    match scan::anychar(rest) {
        Parsed::Complete(seq, rest) => {
            assert(rest@ =~= input@.skip(2));
            let c = if seq == 'a' {
                '\x07'
            } else if seq == 'b' {
                '\x08'
            } else if seq == 'n' {
                '\n'
            } else if seq == 'r' {
                '\r'
            } else if seq == 't' {
                '\t'
            } else if seq == '"' {
                '"'
            } else if seq == '\\' {
                '\\'
            } else if seq == '|' {
                '|'
            } else {
                return Parsed::SyntaxError(Reason::BadEscape);
            };
            Parsed::Complete(c, rest)
        },
        Parsed::Incomplete => Parsed::Incomplete,
        Parsed::SyntaxError(reason) => Parsed::SyntaxError(reason),
    }
}

/// The outcome `rest` of reading on, with `front` before the characters read.
spec fn with_front(front: Seq<char>, rest: Outcome<Seq<char>>) -> Outcome<Seq<char>> {
    match rest {
        Outcome::Complete(more, after) => Outcome::Complete(front + more, after),
        other => other,
    }
}

/// The string literal whose characters are read as `rest`.
spec fn as_string(rest: Outcome<Seq<char>>) -> Outcome<Datum> {
    match rest {
        Outcome::Complete(text, after) => Outcome::Complete(Datum::LispString(text), after),
        Outcome::Incomplete => Outcome::Incomplete,
        Outcome::SyntaxError(reason) => Outcome::SyntaxError(reason),
    }
}

/// Reads a string literal.
pub fn string<'a>(input: &'a str) -> (r: Parsed<'a, LispData>)
    ensures
        r@ == grammar::string(input@),
{
    proof {
        reveal(grammar::string);
    }
    let start = match scan::character('"', input) {
        Parsed::Complete(_, rest) => rest,
        Parsed::Incomplete => {
            return Parsed::Incomplete;
        },
        Parsed::SyntaxError(reason) => {
            return Parsed::SyntaxError(reason);
        },
    };
    let mut rest = start;
    let mut text = String::new();
    proof {
        reveal_strlit("\\\"");
        assert(with_front(text@, grammar::string_rest(rest@)) =~~= grammar::string_rest(start@)) by {
            if let Outcome::Complete(more, after) = grammar::string_rest(start@) {
                assert(text@ + more =~= more);
            }
        }
    }
    loop
        invariant
            grammar::string(input@) == as_string(grammar::string_rest(start@)),
            grammar::string_rest(start@) == with_front(text@, grammar::string_rest(rest@)),
            "\\\""@ == seq!['\\', '"'],
        ensures
            grammar::string_rest(start@) == with_front(text@, grammar::string_rest(rest@)),
            rest@.len() > 0,
            rest@[0] == '"',
        decreases rest@.len(),
    {
        let ghost before = text@;
        let ghost here = rest@;
        let c = match scan::none_of("\\\"", rest) {
            Parsed::Complete(c, after) => {
                assert(c != '"' && c != '\\') by {
                    if c == '"' {
                        assert(seq!['\\', '"'][1] == c);
                    }
                    if c == '\\' {
                        assert(seq!['\\', '"'][0] == c);
                    }
                }
                rest = after;
                c
            },
            Parsed::Incomplete => {
                return Parsed::Incomplete;
            },
            Parsed::SyntaxError(_) => match escaped_char(rest) {
                Parsed::Complete(c, after) => {
                    rest = after;
                    c
                },
                Parsed::Incomplete => {
                    return Parsed::Incomplete;
                },
                Parsed::SyntaxError(Reason::NoMatch) => {
                    break ;
                },
                Parsed::SyntaxError(reason) => {
                    return Parsed::SyntaxError(reason);
                },
            },
        };
        text.push(c);
        proof {
            assert(grammar::string_rest(here) == with_front(seq![c], grammar::string_rest(rest@)));
            if let Outcome::Complete(more, after) = grammar::string_rest(rest@) {
                assert(before + (seq![c] + more) =~= before.push(c) + more);
            }
        }
    }
    match scan::character('"', rest) {
        Parsed::Complete(_, end) => {
            proof {
                reveal(grammar::string);
            }
            assert(text@ + Seq::<char>::empty() =~= text@);
            Parsed::Complete(LispData::LispString(text), end)
        },
        Parsed::Incomplete => Parsed::Incomplete,
        Parsed::SyntaxError(reason) => Parsed::SyntaxError(reason),
    }
}

/// Reads a block comment.
pub fn block_comment<'a>(input: &'a str) -> (r: Parsed<'a, ()>)
    ensures
        r@ == grammar::block_comment(input@),
{
    proof {
        reveal(grammar::block_comment);
    }
    proof {
        reveal_strlit("#|");
        reveal_strlit("|#");
        assert("#|"@ =~= seq!['#', '|']);
        assert("|#"@ =~= seq!['|', '#']);
    }
    let inside = match scan::tag("#|", input) {
        Parsed::Complete(_, rest) => rest,
        Parsed::Incomplete => {
            return Parsed::Incomplete;
        },
        Parsed::SyntaxError(reason) => {
            return Parsed::SyntaxError(reason);
        },
    };
    let close = match scan::take_until("|#", inside) {
        Parsed::Complete(_, rest) => rest,
        Parsed::Incomplete => {
            return Parsed::Incomplete;
        },
        Parsed::SyntaxError(reason) => {
            return Parsed::SyntaxError(reason);
        },
    };
    match scan::tag("|#", close) {
        Parsed::Complete(_, rest) => Parsed::Complete((), rest),
        Parsed::Incomplete => Parsed::Incomplete,
        Parsed::SyntaxError(reason) => Parsed::SyntaxError(reason),
    }
}

/// Reads a line comment.
pub fn line_comment<'a>(input: &'a str) -> (r: Parsed<'a, ()>)
    ensures
        r@ == grammar::line_comment(input@),
{
    proof {
        reveal(grammar::line_comment);
    }
    proof {
        reveal_strlit("\n");
        assert("\n"@ =~= seq!['\n']);
    }
    let inside = match scan::character(';', input) {
        Parsed::Complete(_, rest) => rest,
        Parsed::Incomplete => {
            return Parsed::Incomplete;
        },
        Parsed::SyntaxError(reason) => {
            return Parsed::SyntaxError(reason);
        },
    };
    let close = match scan::take_until("\n", inside) {
        Parsed::Complete(_, rest) => rest,
        Parsed::Incomplete => {
            return Parsed::Incomplete;
        },
        Parsed::SyntaxError(reason) => {
            return Parsed::SyntaxError(reason);
        },
    };
    match scan::line_ending(close) {
        Parsed::Complete(_, rest) => Parsed::Complete((), rest),
        Parsed::Incomplete => Parsed::Incomplete,
        Parsed::SyntaxError(reason) => Parsed::SyntaxError(reason),
    }
}

/// Reads any datum after blanks.
pub fn lisp_data<'a>(input: &'a str) -> (r: Parsed<'a, LispData>)
    ensures
        r@ == grammar::lisp_data(input@),
    decreases input@.len(), 5int,
{
    match scan::multispace0(input) {
        Parsed::Complete(_, here) => {
            proof {
                token::lemma_run(input@, Class::Blank);
            }
            form(here)
        },
        Parsed::Incomplete => Parsed::Incomplete,
        Parsed::SyntaxError(reason) => Parsed::SyntaxError(reason),
    }
}

/// Reads the datum that begins with the first character of `input`.
pub fn form<'a>(input: &'a str) -> (r: Parsed<'a, LispData>)
    ensures
        r@ == grammar::form(input@),
    decreases input@.len(), 4int,
{
    match scan::anychar(input) {
        Parsed::Complete(c, after) => {
            if c == '\'' {
                quote(input)
            } else if c == '(' {
                cons(input)
            } else if c == ';' {
                comment(input)
            } else if c == '#' {
                match scan::anychar(after) {
                    Parsed::Complete(d, _) => if d == '|' || d == ';' {
                        comment(input)
                    } else {
                        sharp(input)
                    },
                    Parsed::Incomplete => Parsed::Incomplete,
                    Parsed::SyntaxError(reason) => Parsed::SyntaxError(reason),
                }
            } else if c == '"' {
                string(input)
            } else {
                match num(input) {
                    Parsed::SyntaxError(Reason::NoMatch) => symbol(input),
                    number => number,
                }
            }
        },
        Parsed::Incomplete => Parsed::Incomplete,
        Parsed::SyntaxError(reason) => Parsed::SyntaxError(reason),
    }
}

/// Reads a quote mark and the datum it quotes.
pub fn quote<'a>(input: &'a str) -> (r: Parsed<'a, LispData>)
    ensures
        r@ == grammar::quote(input@),
    decreases input@.len(), 3int,
{
    let rest = match scan::character('\'', input) {
        Parsed::Complete(_, rest) => rest,
        Parsed::Incomplete => {
            return Parsed::Incomplete;
        },
        Parsed::SyntaxError(reason) => {
            return Parsed::SyntaxError(reason);
        },
    };
    match lisp_data(rest) {
        Parsed::Complete(data, rest) => {
            proof {
                reveal_strlit("quote");
                assert("quote"@ =~= grammar::quote_word());
            }
            let quoted = LispData::Cons(
                Box::new(LispData::Symbol("quote".to_owned())),
                Box::new(LispData::Cons(Box::new(data), Box::new(LispData::Nil))),
            );
            assert(quoted@ == grammar::quoted(data@)) by {
                reveal_with_fuel(LispData::model, 3);
            }
            Parsed::Complete(quoted, rest)
        },
        Parsed::Incomplete => Parsed::Incomplete,
        Parsed::SyntaxError(reason) => Parsed::SyntaxError(reason),
    }
}

/// The outcome `rest` of reading further elements, with `front` before them.
spec fn with_items(front: Seq<Datum>, rest: Outcome<(Seq<Datum>, Reason)>) -> Outcome<
    (Seq<Datum>, Reason),
> {
    match rest {
        Outcome::Complete((more, why), stop) => Outcome::Complete((front + more, why), stop),
        other => other,
    }
}

/// Reads the elements of a list or a vector, up to what is no datum.
pub fn many0_data<'a>(input: &'a str) -> (r: Parsed<'a, (Vec<LispData>, Reason)>)
    ensures
        r@ == grammar::many0_data(input@),
    decreases input@.len(), 6int,
{
    let mut items: Vec<LispData> = Vec::new();
    let mut rest = input;
    proof {
        if let Outcome::Complete((more, why), stop) = grammar::many0_data(input@) {
            assert(models(items@) + more =~= more);
        }
    }
    loop
        invariant
            rest@.len() <= input@.len(),
            grammar::many0_data(input@) == with_items(models(items@), grammar::many0_data(rest@)),
        decreases rest@.len(),
    {
        let here = match scan::multispace0(rest) {
            Parsed::Complete(_, here) => here,
            Parsed::Incomplete => {
                return Parsed::Incomplete;
            },
            Parsed::SyntaxError(reason) => {
                return Parsed::SyntaxError(reason);
            },
        };
        proof {
            token::lemma_run(rest@, Class::Blank);
            lemma_lisp_data_advances(here@);
        }
        match lisp_data(here) {
            Parsed::Complete(first, after) => {
                let ghost before = models(items@);
                items.push(first);
                proof {
                    assert(models(items@) =~= before.push(first@));
                    if let Outcome::Complete((more, why), stop) = grammar::many0_data(after@) {
                        assert(before + (seq![first@] + more) =~= before.push(first@) + more);
                    }
                }
                rest = after;
            },
            Parsed::Incomplete => {
                return Parsed::Incomplete;
            },
            Parsed::SyntaxError(why) => {
                proof {
                    assert(models(items@) + Seq::<Datum>::empty() =~= models(items@));
                    assert(items.deep_view() =~= models(items@));
                }
                return Parsed::Complete((items, why), here);
            },
        }
    }
}

/// Folds `items` from the right into the list that ends in `last`.
pub fn chain(items: Vec<LispData>, last: LispData) -> (list: LispData)
    ensures
        list@ == grammar::chain(models(items@), last@),
{
    let mut items = items;
    let mut list = last;
    let ghost all = models(items@);
    proof {
        assert(all.skip(all.len() as int) =~= Seq::<Datum>::empty());
    }
    loop
        invariant
            items@.len() <= all.len(),
            models(items@) == all.take(items@.len() as int),
            list@ == grammar::chain(all.skip(items@.len() as int), last@),
        ensures
            list@ == grammar::chain(all, last@),
        decreases items@.len(),
    {
        let ghost before = items@;
        match items.pop() {
            Some(item) => {
                proof {
                    let n = items@.len() as int;
                    assert(models(before)[n] == item@);
                    assert(all[n] == item@);
                    assert(all.skip(n).skip(1) =~= all.skip(n + 1));
                    assert(all.skip(n)[0] == item@);
                    assert(models(items@) =~= all.take(n));
                }
                list = LispData::Cons(Box::new(item), Box::new(list));
            },
            None => {
                proof {
                    assert(all.skip(0) =~= all);
                }
                break ;
            },
        }
    }
    list
}

/// Reads what follows the lone `.` of a list: the last datum, blanks and `)`.
pub fn dotted_tail<'a>(input: &'a str) -> (r: Parsed<'a, LispData>)
    ensures
        r@ == grammar::dotted_tail(input@),
    decreases input@.len(), 6int,
{
    match lisp_data(input) {
        Parsed::Complete(last, after) => match scan::multispace0(after) {
            Parsed::Complete(_, close) => match scan::character(')', close) {
                Parsed::Complete(_, end) => Parsed::Complete(last, end),
                Parsed::Incomplete => Parsed::Incomplete,
                Parsed::SyntaxError(reason) => Parsed::SyntaxError(reason),
            },
            Parsed::Incomplete => Parsed::Incomplete,
            Parsed::SyntaxError(reason) => Parsed::SyntaxError(reason),
        },
        Parsed::Incomplete => Parsed::Incomplete,
        Parsed::SyntaxError(reason) => Parsed::SyntaxError(reason),
    }
}

/// Reads a list.
pub fn cons<'a>(input: &'a str) -> (r: Parsed<'a, LispData>)
    ensures
        r@ == grammar::cons(input@),
    decreases input@.len(), 3int,
{
    let rest = match scan::character('(', input) {
        Parsed::Complete(_, rest) => rest,
        Parsed::Incomplete => {
            return Parsed::Incomplete;
        },
        Parsed::SyntaxError(reason) => {
            return Parsed::SyntaxError(reason);
        },
    };
    match many0_data(rest) {
        Parsed::Complete((middle, why), stop) => {
            proof {
                lemma_many0_data_stops(rest@);
                assert(middle.deep_view() =~= models(middle@));
            }
            match scan::character(')', stop) {
                Parsed::Complete(_, end) => Parsed::Complete(chain(middle, LispData::Nil), end),
                Parsed::Incomplete => Parsed::Incomplete,
                Parsed::SyntaxError(_) => match scan::character('.', stop) {
                    Parsed::Complete(_, after) => match dotted_tail(after) {
                        Parsed::Complete(dot, end) => Parsed::Complete(chain(middle, dot), end),
                        Parsed::Incomplete => Parsed::Incomplete,
                        Parsed::SyntaxError(reason) => Parsed::SyntaxError(reason),
                    },
                    _ => Parsed::SyntaxError(why),
                },
            }
        },
        Parsed::Incomplete => Parsed::Incomplete,
        Parsed::SyntaxError(reason) => Parsed::SyntaxError(reason),
    }
}

/// Reads what follows `#(`: the elements of a vector and `)`.
pub fn vector_rest<'a>(input: &'a str) -> (r: Parsed<'a, LispData>)
    ensures
        r@ == grammar::vector_rest(input@),
    decreases input@.len(), 7int,
{
    match many0_data(input) {
        Parsed::Complete((vals, why), stop) => {
            proof {
                lemma_many0_data_stops(input@);
                assert(vals.deep_view() =~= models(vals@));
            }
            match scan::character(')', stop) {
                Parsed::Complete(_, end) => Parsed::Complete(LispData::Vector(vals), end),
                _ => Parsed::SyntaxError(why),
            }
        },
        Parsed::Incomplete => Parsed::Incomplete,
        Parsed::SyntaxError(reason) => Parsed::SyntaxError(reason),
    }
}

/// Reads a `#` form.
pub fn sharp<'a>(input: &'a str) -> (r: Parsed<'a, LispData>)
    ensures
        r@ == grammar::sharp(input@),
    decreases input@.len(), 3int,
{
    let ghost whole = input@;
    let input = match scan::character('#', input) {
        Parsed::Complete(_, rest) => rest,
        Parsed::Incomplete => {
            return Parsed::Incomplete;
        },
        Parsed::SyntaxError(reason) => {
            return Parsed::SyntaxError(reason);
        },
    };
    match scan::anychar(input) {
        Parsed::Complete(c, input) => {
            assert(input@ =~= whole.skip(2));
            if c == 'f' || c == 'F' {
                Parsed::Complete(LispData::Bool(false), input)
            } else if c == 't' || c == 'T' {
                Parsed::Complete(LispData::Bool(true), input)
            } else if c == 'b' || c == 'B' {
                parse_num(input, Radix::Binary)
            } else if c == 'o' || c == 'O' {
                parse_num(input, Radix::Octal)
            } else if c == 'd' || c == 'D' {
                num(input)
            } else if c == 'x' || c == 'X' {
                parse_num(input, Radix::Hex)
            } else if c == '(' {
                vector_rest(input)
            } else {
                Parsed::SyntaxError(Reason::UnknownSharp)
            }
        },
        Parsed::Incomplete => Parsed::Incomplete,
        Parsed::SyntaxError(reason) => Parsed::SyntaxError(reason),
    }
}

/// Reads a datum comment.
pub fn datum_comment<'a>(input: &'a str) -> (r: Parsed<'a, ()>)
    ensures
        r@ == grammar::datum_comment(input@),
    decreases input@.len(), 1int,
{
    proof {
        reveal_strlit("#;");
        assert("#;"@ =~= seq!['#', ';']);
    }
    match scan::tag("#;", input) {
        Parsed::Complete(_, inside) => match lisp_data(inside) {
            Parsed::Complete(_, rest) => Parsed::Complete((), rest),
            Parsed::Incomplete => Parsed::Incomplete,
            Parsed::SyntaxError(reason) => Parsed::SyntaxError(reason),
        },
        Parsed::Incomplete => Parsed::Incomplete,
        Parsed::SyntaxError(reason) => Parsed::SyntaxError(reason),
    }
}

/// Reads one comment of any kind.
pub fn any_comment<'a>(input: &'a str) -> (r: Parsed<'a, ()>)
    ensures
        r@ == grammar::any_comment(input@),
    decreases input@.len(), 2int,
{
    match block_comment(input) {
        Parsed::SyntaxError(_) => match line_comment(input) {
            Parsed::SyntaxError(_) => datum_comment(input),
            line => line,
        },
        block => block,
    }
}

/// Reads a comment and the datum after it.
pub fn comment<'a>(input: &'a str) -> (r: Parsed<'a, LispData>)
    ensures
        r@ == grammar::comment(input@),
    decreases input@.len(), 3int,
{
    match any_comment(input) {
        Parsed::Complete(_, rest) => {
            proof {
                lemma_any_comment_advances(input@);
            }
            lisp_data(rest)
        },
        Parsed::Incomplete => Parsed::Incomplete,
        Parsed::SyntaxError(reason) => Parsed::SyntaxError(reason),
    }
}

} // verus!
