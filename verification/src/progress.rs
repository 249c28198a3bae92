//! Every rule that reads a value uses up at least one character, and hands
//! back what is left of its text.

use vstd::prelude::*;
use crate::grammar::{
    any_comment, block_comment, comment, cons, datum_comment, dotted_tail, escaped_char, form,
    line_comment, lisp_data, many0_data, parse_num, quote, sharp, string, string_rest, symbol,
    vector_rest,
};
use crate::data::Datum;
use crate::outcome::Outcome;
use crate::token::{
    advances, find, is_blank, is_rest_of, lemma_rest_of_rest, lemma_run, run, Class, Radix,
};

verus! {

pub(crate) proof fn lemma_symbol_advances(s: Seq<char>)
    ensures
        advances(symbol(s), s),
{
    reveal(symbol);
    lemma_run(s, Class::Token);
}

pub(crate) proof fn lemma_parse_num_advances(s: Seq<char>, radix: Radix)
    ensures
        advances(parse_num(s, radix), s),
{
    reveal(parse_num);
    if s.len() > 0 {
        if s[0] == '-' {
            lemma_run(s.skip(1), Class::Digit(radix));
            let n = run(s.skip(1), Class::Digit(radix)) as int;
            assert(s.skip(1).skip(n) =~= s.skip(n + 1));
        } else {
            lemma_run(s, Class::Digit(radix));
        }
    }
}

pub(crate) proof fn lemma_string_rest_advances(s: Seq<char>)
    ensures
        advances(string_rest(s), s),
    decreases s.len(),
{
    if s.len() == 0 || s[0] == '"' {
    } else if s[0] == '\\' {
        if let Outcome::Complete(c, rest) = escaped_char(s) {
            lemma_string_rest_advances(rest);
            if let Outcome::Complete(_, after) = string_rest(rest) {
                lemma_rest_of_rest(after, rest, s);
            }
        }
    } else {
        lemma_string_rest_advances(s.skip(1));
        if let Outcome::Complete(_, after) = string_rest(s.skip(1)) {
            lemma_rest_of_rest(after, s.skip(1), s);
        }
    }
}

pub(crate) proof fn lemma_string_advances(s: Seq<char>)
    ensures
        advances(string(s), s),
{
    reveal(string);
    if s.len() > 0 && s[0] == '"' {
        lemma_string_rest_advances(s.skip(1));
        if let Outcome::Complete(_, after) = string_rest(s.skip(1)) {
            lemma_rest_of_rest(after, s.skip(1), s);
        }
    }
}

/// The place where a word is found lies inside the text, and the word stands
/// there.
pub(crate) proof fn lemma_find(s: Seq<char>, t: Seq<char>)
    ensures
        find(s, t) >= 0 ==> find(s, t) + t.len() <= s.len() && t.is_prefix_of(s.skip(find(s, t))),
    decreases s.len(),
{
    if s.len() >= t.len() && !t.is_prefix_of(s) {
        lemma_find(s.skip(1), t);
        let later = find(s.skip(1), t);
        if later >= 0 {
            assert(s.skip(1).skip(later) =~= s.skip(later + 1));
        }
    } else if s.len() >= t.len() {
        assert(s.skip(0) =~= s);
    }
}

pub(crate) proof fn lemma_block_comment_advances(s: Seq<char>)
    ensures
        advances(block_comment(s), s),
{
    reveal(block_comment);
    let open = seq!['#', '|'];
    let close = seq!['|', '#'];
    if open.is_prefix_of(s) {
        let inside = s.skip(2);
        lemma_find(inside, close);
        let at = find(inside, close);
        if at >= 0 {
            assert(inside.skip(at).skip(2) =~= s.skip(at + 4));
        }
    }
}

pub(crate) proof fn lemma_line_comment_advances(s: Seq<char>)
    ensures
        advances(line_comment(s), s),
{
    reveal(line_comment);
    if s.len() > 0 && s[0] == ';' {
        let inside = s.skip(1);
        lemma_find(inside, seq!['\n']);
        let at = find(inside, seq!['\n']);
        if at >= 0 {
            let close = inside.skip(at);
            assert(close[0] == '\n');
            assert(close.skip(1) =~= s.skip(at + 2));
            assert(seq!['\n'].is_prefix_of(close));
        }
    }
}

/// Every datum that is read uses up at least one character of its text, and
/// what is left over is the end of that text.
pub proof fn lemma_lisp_data_advances(s: Seq<char>)
    ensures
        advances(lisp_data(s), s),
    decreases s.len(), 5int,
{
    lemma_run(s, Class::Blank);
    let blanks = run(s, Class::Blank) as int;
    if blanks < s.len() {
        let here = s.skip(blanks);
        lemma_form_advances(here);
        if let Outcome::Complete(_, rest) = form(here) {
            lemma_rest_of_rest(rest, here, s);
        }
    }
}

pub(crate) proof fn lemma_form_advances(s: Seq<char>)
    ensures
        advances(form(s), s),
    decreases s.len(), 4int,
{
    if s.len() > 0 {
        lemma_quote_advances(s);
        lemma_cons_advances(s);
        lemma_comment_advances(s);
        lemma_sharp_advances(s);
        lemma_string_advances(s);
        lemma_parse_num_advances(s, Radix::Decimal);
        lemma_symbol_advances(s);
    }
}

pub(crate) proof fn lemma_quote_advances(s: Seq<char>)
    ensures
        advances(quote(s), s),
    decreases s.len(), 3int,
{
    if s.len() > 0 && s[0] == '\'' {
        lemma_lisp_data_advances(s.skip(1));
        if let Outcome::Complete(_, rest) = lisp_data(s.skip(1)) {
            lemma_rest_of_rest(rest, s.skip(1), s);
        }
    }
}

/// The elements stop in front of a character that is no blank, in what is
/// left of the text.
pub(crate) proof fn lemma_many0_data_stops(s: Seq<char>)
    ensures
        many0_data(s) matches Outcome::Complete((_, why), stop) ==> is_rest_of(stop, s)
            && stop.len() > 0 && !is_blank(stop[0]) && lisp_data(stop) == Outcome::<
            Datum,
        >::SyntaxError(why),
    decreases s.len(), 6int,
{
    lemma_run(s, Class::Blank);
    let blanks = run(s, Class::Blank) as int;
    if blanks < s.len() {
        let here = s.skip(blanks);
        lemma_lisp_data_advances(here);
        match lisp_data(here) {
            Outcome::Complete(first, after) => {
                lemma_many0_data_stops(after);
                if let Outcome::Complete(_, stop) = many0_data(after) {
                    lemma_rest_of_rest(stop, after, here);
                    lemma_rest_of_rest(stop, here, s);
                }
            },
            _ => {},
        }
    }
}

pub(crate) proof fn lemma_dotted_tail_advances(s: Seq<char>)
    ensures
        advances(dotted_tail(s), s),
    decreases s.len(), 6int,
{
    lemma_lisp_data_advances(s);
    if let Outcome::Complete(_, after) = lisp_data(s) {
        lemma_run(after, Class::Blank);
        let blanks = run(after, Class::Blank) as int;
        if blanks < after.len() {
            let close = after.skip(blanks);
            lemma_rest_of_rest(close, after, s);
            lemma_rest_of_rest(close.skip(1), close, s);
        }
    }
}

pub(crate) proof fn lemma_cons_advances(s: Seq<char>)
    ensures
        advances(cons(s), s),
    decreases s.len(), 3int,
{
    if s.len() > 0 && s[0] == '(' {
        lemma_many0_data_stops(s.skip(1));
        if let Outcome::Complete(_, stop) = many0_data(s.skip(1)) {
            lemma_rest_of_rest(stop, s.skip(1), s);
            lemma_rest_of_rest(stop.skip(1), stop, s);
            if stop[0] == '.' {
                lemma_dotted_tail_advances(stop.skip(1));
                if let Outcome::Complete(_, end) = dotted_tail(stop.skip(1)) {
                    lemma_rest_of_rest(end, stop.skip(1), s);
                }
            }
        }
    }
}

pub(crate) proof fn lemma_vector_rest_advances(s: Seq<char>)
    ensures
        advances(vector_rest(s), s),
    decreases s.len(), 7int,
{
    lemma_many0_data_stops(s);
    if let Outcome::Complete(_, stop) = many0_data(s) {
        lemma_rest_of_rest(stop.skip(1), stop, s);
    }
}

pub(crate) proof fn lemma_sharp_advances(s: Seq<char>)
    ensures
        advances(sharp(s), s),
    decreases s.len(), 3int,
{
    if s.len() >= 2 && s[0] == '#' {
        let rest = s.skip(2);
        lemma_parse_num_advances(rest, Radix::Binary);
        lemma_parse_num_advances(rest, Radix::Octal);
        lemma_parse_num_advances(rest, Radix::Decimal);
        lemma_parse_num_advances(rest, Radix::Hex);
        if s[1] == '(' {
            lemma_vector_rest_advances(rest);
        }
        if let Outcome::Complete(_, end) = sharp(s) {
            if s[1] != 'f' && s[1] != 'F' && s[1] != 't' && s[1] != 'T' {
                lemma_rest_of_rest(end, rest, s);
            }
        }
    }
}

pub(crate) proof fn lemma_datum_comment_advances(s: Seq<char>)
    ensures
        advances(datum_comment(s), s),
    decreases s.len(), 1int,
{
    if seq!['#', ';'].is_prefix_of(s) {
        lemma_lisp_data_advances(s.skip(2));
        if let Outcome::Complete(_, rest) = lisp_data(s.skip(2)) {
            lemma_rest_of_rest(rest, s.skip(2), s);
        }
    }
}

pub(crate) proof fn lemma_any_comment_advances(s: Seq<char>)
    ensures
        advances(any_comment(s), s),
    decreases s.len(), 2int,
{
    lemma_block_comment_advances(s);
    lemma_line_comment_advances(s);
    lemma_datum_comment_advances(s);
}

pub(crate) proof fn lemma_comment_advances(s: Seq<char>)
    ensures
        advances(comment(s), s),
    decreases s.len(), 3int,
{
    lemma_any_comment_advances(s);
    if let Outcome::Complete(_, rest) = any_comment(s) {
        lemma_lisp_data_advances(rest);
        if let Outcome::Complete(_, end) = lisp_data(rest) {
            lemma_rest_of_rest(end, rest, s);
        }
    }
}

} // verus!
