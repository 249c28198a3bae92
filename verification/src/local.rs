//! The reader looks no further than one character past a datum.
//!
//! What follows a datum matters only in that it ends the datum: the text
//! behind a datum can be replaced by any text that begins with the same
//! character, or with a blank, and the datum reads the same.

use vstd::prelude::*;
use crate::data::Datum;
use crate::grammar::{
    any_comment, block_comment, chain, comment, cons, datum_comment, dotted_tail, form,
    line_comment, lisp_data, many0_data, num, parse_num, quote, sharp, string, string_rest, symbol,
    vector_rest,
};
use crate::outcome::{Outcome, Reason};
use crate::progress::{
    lemma_any_comment_advances, lemma_datum_comment_advances, lemma_dotted_tail_advances,
    lemma_find, lemma_form_advances, lemma_lisp_data_advances, lemma_many0_data_stops,
    lemma_parse_num_advances, lemma_string_rest_advances, lemma_symbol_advances,
    lemma_vector_rest_advances,
};
use crate::token::{
    find, is_blank, is_rest_of, lemma_rest_of_rest, lemma_run, lemma_run_exact, many1, run, tag,
    until, Class, Radix,
};

verus! {

/// Whether `other` ends a datum as `rest` does: where anything follows the
/// datum, `other` begins with the same character or with a blank.
pub open spec fn ends_alike(rest: Seq<char>, other: Seq<char>) -> bool {
    rest.len() == 0 || (other.len() > 0 && (other[0] == rest[0] || is_blank(other[0])))
}

/// The part of `s` in front of its rest `rest`: what a rule has read.
pub open spec fn front(s: Seq<char>, rest: Seq<char>) -> Seq<char> {
    s.take(s.len() - rest.len())
}

/// What was read in front of a rest of a rest is what was read in front of
/// the rest, and then what was read of that.
pub(crate) proof fn lemma_front_of_front(s: Seq<char>, middle: Seq<char>, rest: Seq<char>)
    requires
        is_rest_of(middle, s),
        is_rest_of(rest, middle),
    ensures
        front(s, rest) == front(s, middle) + front(middle, rest),
        is_rest_of(rest, s),
{
    lemma_rest_of_rest(rest, middle, s);
    assert(front(s, rest) =~= front(s, middle) + front(middle, rest));
}

/// What was read up to a place further into a rest is what was read up to
/// the rest, and the characters up to that place.
proof fn lemma_front_past(s: Seq<char>, rest: Seq<char>, n: int)
    requires
        is_rest_of(rest, s),
        0 <= n <= rest.len(),
    ensures
        front(s, rest.skip(n)) == front(s, rest) + rest.take(n),
        is_rest_of(rest.skip(n), s),
{
    assert(rest.skip(n) =~= s.skip(s.len() - rest.len() + n));
    assert(front(s, rest.skip(n)) =~= front(s, rest) + rest.take(n));
}

/// A text is what was read of it and its rest.
pub(crate) proof fn lemma_front_and_rest(s: Seq<char>, rest: Seq<char>)
    requires
        is_rest_of(rest, s),
    ensures
        front(s, rest) + rest == s,
        front(s, rest).len() == s.len() - rest.len(),
{
    assert(front(s, rest) + rest =~= s);
}

/// A run of digits or of symbol characters, read again in front of a text
/// that ends it alike, is the same run.
proof fn lemma_many1_local(s: Seq<char>, other: Seq<char>, class: Class)
    requires
        !(class is Blank),
    ensures
        many1(s, class) matches Outcome::Complete(text, rest) ==> (ends_alike(rest, other)
            ==> many1(front(s, rest) + other, class) == Outcome::Complete(text, other)),
{
    lemma_run(s, class);
    let n = run(s, class) as int;
    if many1(s, class) is Complete && ends_alike(s.skip(n), other) {
        let rest = s.skip(n);
        let again = front(s, rest) + other;
        assert(rest[0] == s[n]);
        assert forall|i: int| 0 <= i < n implies class.has(#[trigger] again[i]) by {
            assert(again[i] == s[i]);
        }
        assert(again[n] == other[0]);
        lemma_run_exact(again, class, n);
        assert(again.take(n) =~= s.take(n));
        assert(again.skip(n) =~= other);
    }
}

/// A word found in a text is found at the same place when the text behind
/// the word is replaced.
proof fn lemma_find_local(s: Seq<char>, other: Seq<char>, t: Seq<char>)
    requires
        find(s, t) >= 0,
    ensures
        find(s, t) + t.len() <= s.len(),
        find(s.take(find(s, t) + t.len()) + other, t) == find(s, t),
    decreases s.len(),
{
    lemma_find(s, t);
    let at = find(s, t);
    let again = s.take(at + t.len()) + other;
    if t.is_prefix_of(s) {
        assert(again.subrange(0, t.len() as int) =~= s.subrange(0, t.len() as int));
    } else {
        let later = s.skip(1);
        lemma_find_local(later, other, t);
        assert(again.skip(1) =~= later.take(at - 1 + t.len()) + other);
        if t.is_prefix_of(again) {
            assert(again.subrange(0, t.len() as int) =~= s.subrange(0, t.len() as int));
        }
    }
}

/// The text up to a word, read again with another text behind the word.
proof fn lemma_until_word_local(s: Seq<char>, other: Seq<char>, t: Seq<char>)
    ensures
        until(s, t) matches Outcome::Complete(_, close) ==> {
            &&& is_rest_of(close, s)
            &&& t.is_prefix_of(close)
            &&& until(front(s, close) + (t + other), t) == Outcome::Complete(
                front(s, close),
                t + other,
            )
        },
{
    let at = find(s, t);
    if at >= 0 {
        lemma_find(s, t);
        lemma_find_local(s, other, t);
        let close = s.skip(at);
        let again = front(s, close) + (t + other);
        assert(front(s, close) =~= s.take(at));
        assert(s.take(at + t.len()) =~= s.take(at) + t) by {
            assert(close.subrange(0, t.len() as int) =~= t);
            assert forall|i: int| 0 <= i < at + t.len() implies (#[trigger] s.take(at + t.len())[i])
                == (s.take(at) + t)[i] by {
                if i >= at {
                    assert(close.subrange(0, t.len() as int)[i - at] == close[i - at]);
                }
            }
        }
        assert(again =~= s.take(at + t.len()) + other);
        assert(again.take(at) =~= s.take(at));
        assert(again.skip(at) =~= t + other);
    }
}

proof fn lemma_symbol_local(s: Seq<char>, other: Seq<char>)
    ensures
        symbol(s) matches Outcome::Complete(d, rest) ==> (ends_alike(rest, other) ==> symbol(
            front(s, rest) + other,
        ) == Outcome::Complete(d, other)),
{
    reveal(symbol);
    lemma_many1_local(s, other, Class::Token);
}

proof fn lemma_parse_num_local(s: Seq<char>, other: Seq<char>, radix: Radix)
    ensures
        parse_num(s, radix) matches Outcome::Complete(d, rest) ==> (ends_alike(rest, other)
            ==> parse_num(front(s, rest) + other, radix) == Outcome::Complete(d, other)),
{
    reveal(parse_num);
    if let Outcome::Complete(d, rest) = parse_num(s, radix) {
        if ends_alike(rest, other) {
            let again = front(s, rest) + other;
            if s[0] == '-' {
                let body = s.skip(1);
                lemma_run(body, Class::Digit(radix));
                lemma_many1_local(body, other, Class::Digit(radix));
                assert(again[0] == '-');
                assert(again.skip(1) =~= front(body, rest) + other);
            } else {
                lemma_run(s, Class::Digit(radix));
                lemma_many1_local(s, other, Class::Digit(radix));
                assert(again[0] == s[0]);
            }
        }
    }
}

proof fn lemma_string_rest_local(s: Seq<char>, other: Seq<char>)
    ensures
        string_rest(s) matches Outcome::Complete(text, rest) ==> string_rest(
            front(s, rest) + other,
        ) == Outcome::Complete(text, other),
    decreases s.len(),
{
    if let Outcome::Complete(text, rest) = string_rest(s) {
        lemma_string_rest_advances(s);
        let again = front(s, rest) + other;
        assert(again[0] == s[0]);
        if s[0] == '"' {
            assert(again.skip(1) =~= other);
        } else if s[0] == '\\' {
            let later = s.skip(2);
            lemma_string_rest_advances(later);
            lemma_string_rest_local(later, other);
            assert(again[1] == s[1]);
            assert(again.skip(2) =~= front(later, rest) + other);
        } else {
            let later = s.skip(1);
            lemma_string_rest_advances(later);
            lemma_string_rest_local(later, other);
            assert(again.skip(1) =~= front(later, rest) + other);
        }
    }
}

proof fn lemma_string_local(s: Seq<char>, other: Seq<char>)
    ensures
        string(s) matches Outcome::Complete(d, rest) ==> string(front(s, rest) + other)
            == Outcome::Complete(d, other),
{
    reveal(string);
    if let Outcome::Complete(d, rest) = string(s) {
        let later = s.skip(1);
        lemma_string_rest_advances(later);
        lemma_string_rest_local(later, other);
        let again = front(s, rest) + other;
        assert(again[0] == s[0]);
        assert(again.skip(1) =~= front(later, rest) + other);
    }
}

proof fn lemma_block_comment_local(s: Seq<char>, other: Seq<char>)
    ensures
        block_comment(s) matches Outcome::Complete(_, rest) ==> block_comment(
            front(s, rest) + other,
        ) == Outcome::Complete((), other),
{
    reveal(block_comment);
    let open = seq!['#', '|'];
    let shut = seq!['|', '#'];
    if let Outcome::Complete(_, rest) = block_comment(s) {
        let inside = s.skip(2);
        lemma_until_word_local(inside, other, shut);
        let close = inside.skip(find(inside, shut));
        let again = front(s, rest) + other;
        assert(is_rest_of(close, inside));
        assert(rest == close.skip(2));
        assert(again.subrange(0, 2) =~= s.subrange(0, 2));
        assert(open.is_prefix_of(again));
        assert(again.skip(2) =~= front(inside, close) + (shut + other)) by {
            assert(close.subrange(0, 2) =~= shut);
            assert(close[0] == '|' && close[1] == '#') by {
                assert(close.subrange(0, 2)[0] == close[0]);
                assert(close.subrange(0, 2)[1] == close[1]);
            }
        }
        assert((shut + other).subrange(0, 2) =~= shut);
        assert((shut + other).skip(2) =~= other);
    }
}

proof fn lemma_line_comment_local(s: Seq<char>, other: Seq<char>)
    ensures
        line_comment(s) matches Outcome::Complete(_, rest) ==> line_comment(
            front(s, rest) + other,
        ) == Outcome::Complete((), other),
{
    reveal(line_comment);
    let feed = seq!['\n'];
    if let Outcome::Complete(_, rest) = line_comment(s) {
        let inside = s.skip(1);
        lemma_until_word_local(inside, other, feed);
        let close = inside.skip(find(inside, feed));
        let again = front(s, rest) + other;
        assert(is_rest_of(close, inside));
        assert(close[0] == '\n') by {
            assert(close.subrange(0, 1) =~= feed);
            assert(close.subrange(0, 1)[0] == close[0]);
        }
        assert(feed.is_prefix_of(close));
        assert(rest == close.skip(1));
        assert(again[0] == s[0]);
        assert(again.skip(1) =~= front(inside, close) + (feed + other));
        assert((feed + other).subrange(0, 1) =~= feed);
        assert((feed + other).skip(1) =~= other);
        assert(tag(feed + other, feed) == Outcome::Complete(feed, other));
    }
}

/// A text that differs from a word at one of its characters does not begin
/// with the word and is no beginning of it.
pub(crate) proof fn lemma_tag_mismatch(s: Seq<char>, t: Seq<char>, at: int)
    requires
        0 <= at < s.len(),
        at < t.len(),
        s[at] != t[at],
    ensures
        tag(s, t) == Outcome::<Seq<char>>::SyntaxError(Reason::NoMatch),
{
    if t.is_prefix_of(s) {
        assert(s.subrange(0, t.len() as int)[at] == s[at]);
    }
    if s.is_prefix_of(t) {
        assert(t.subrange(0, s.len() as int)[at] == t[at]);
    }
}

/// `)` begins no datum.
pub(crate) proof fn lemma_paren_is_no_datum(s: Seq<char>)
    requires
        s.len() > 0,
        s[0] == ')',
    ensures
        lisp_data(s) == Outcome::<Datum>::SyntaxError(Reason::NoMatch),
{
    reveal(symbol);
    reveal(parse_num);
    lemma_run_exact(s, Class::Blank, 0);
    assert(s.skip(0) =~= s);
    lemma_run_exact(s, Class::Digit(Radix::Decimal), 0);
    lemma_run_exact(s, Class::Token, 0);
}

/// A text that begins with `.` is no datum exactly where the `.` is alone,
/// with a character behind it that belongs to no symbol.
pub(crate) proof fn lemma_lone_dot(s: Seq<char>)
    requires
        s.len() > 0,
        s[0] == '.',
    ensures
        lisp_data(s) is SyntaxError <==> s.len() >= 2 && !crate::token::is_token(s[1]),
        lisp_data(s) is SyntaxError ==> lisp_data(s) == Outcome::<Datum>::SyntaxError(
            Reason::ReservedDot,
        ),
{
    reveal(symbol);
    reveal(parse_num);
    lemma_run_exact(s, Class::Blank, 0);
    assert(s.skip(0) =~= s);
    lemma_run_exact(s, Class::Digit(Radix::Decimal), 0);
    lemma_run(s, Class::Token);
    let n = run(s, Class::Token) as int;
    assert(n >= 1);
    if s.len() >= 2 && !crate::token::is_token(s[1]) {
        lemma_run_exact(s, Class::Token, 1);
        assert(s.take(1) =~= seq!['.']);
    } else if n < s.len() {
        if n == 1 {
            assert(s.len() >= 2);
        } else {
            assert(s.take(n).len() == n);
            assert(s.take(n) != seq!['.']);
        }
    }
}

/// What follows a datum matters only by its first character: in front of any
/// text that begins with the same character as what followed, or with a
/// blank, the text of the datum reads as the same datum and leaves that text.
pub proof fn reading_is_local(s: Seq<char>, other: Seq<char>)
    ensures
        lisp_data(s) matches Outcome::Complete(d, rest) ==> (ends_alike(rest, other)
            ==> lisp_data(front(s, rest) + other) == Outcome::Complete(d, other)),
    decreases s.len(), 5int,
{
    if let Outcome::Complete(d, rest) = lisp_data(s) {
        if ends_alike(rest, other) {
            lemma_run(s, Class::Blank);
            let blanks = run(s, Class::Blank) as int;
            let here = s.skip(blanks);
            lemma_form_advances(here);
            lemma_front_of_front(s, here, rest);
            lemma_form_local(here, other);
            let again = front(s, rest) + other;
            assert(front(s, here) =~= s.take(blanks));
            assert(again =~= s.take(blanks) + (front(here, rest) + other));
            assert forall|i: int| 0 <= i < blanks implies Class::Blank.has(#[trigger] again[i]) by {
                assert(again[i] == s[i]);
            }
            assert(again[blanks] == here[0]);
            lemma_run_exact(again, Class::Blank, blanks);
            assert(again.skip(blanks) =~= front(here, rest) + other);
        }
    }
}

proof fn lemma_form_local(s: Seq<char>, other: Seq<char>)
    ensures
        form(s) matches Outcome::Complete(d, rest) ==> (ends_alike(rest, other) ==> form(
            front(s, rest) + other,
        ) == Outcome::Complete(d, other)),
    decreases s.len(), 4int,
{
    reveal(parse_num);
    if let Outcome::Complete(d, rest) = form(s) {
        if ends_alike(rest, other) {
            lemma_form_advances(s);
            let again = front(s, rest) + other;
            assert(again[0] == s[0]);
            if s[0] == '\'' {
                lemma_quote_local(s, other);
            } else if s[0] == '(' {
                lemma_cons_local(s, other);
            } else if s[0] == ';' {
                lemma_comment_local(s, other);
            } else if s[0] == '#' {
                lemma_sharp_local(s, other);
                lemma_comment_local(s, other);
                assert(front(s, rest).len() >= 2) by {
                    lemma_sharp_uses_two(s);
                    lemma_comment_uses_two(s);
                }
                assert(again[1] == s[1]);
            } else if s[0] == '"' {
                lemma_string_local(s, other);
            } else if num(s) is Complete {
                lemma_parse_num_local(s, other, Radix::Decimal);
            } else {
                lemma_symbol_local(s, other);
                lemma_symbol_advances(s);
                // the number rule still does not apply
                if s[0] == '-' {
                    lemma_run(s.skip(1), Class::Digit(Radix::Decimal));
                    let body = again.skip(1);
                    if front(s, rest).len() >= 2 {
                        assert(body[0] == s[1]);
                    } else {
                        assert(rest =~= s.skip(1));
                        assert(body =~= other);
                    }
                    lemma_run_exact(body, Class::Digit(Radix::Decimal), 0);
                } else {
                    lemma_run(s, Class::Digit(Radix::Decimal));
                    lemma_run_exact(again, Class::Digit(Radix::Decimal), 0);
                }
                assert(num(again) == Outcome::<Datum>::SyntaxError(Reason::NoMatch));
            }
        }
    }
}

/// A `#` form uses up the `#` and the character behind it.
proof fn lemma_sharp_uses_two(s: Seq<char>)
    ensures
        sharp(s) matches Outcome::Complete(_, rest) ==> rest.len() + 2 <= s.len(),
{
    if s.len() >= 2 && s[0] == '#' {
        let rest = s.skip(2);
        lemma_parse_num_advances(rest, Radix::Binary);
        lemma_parse_num_advances(rest, Radix::Octal);
        lemma_parse_num_advances(rest, Radix::Decimal);
        lemma_parse_num_advances(rest, Radix::Hex);
        lemma_vector_rest_advances(rest);
    }
}

/// A comment that begins with `#`, and the datum behind it, use up more than
/// two characters.
proof fn lemma_comment_uses_two(s: Seq<char>)
    requires
        s.len() > 0,
        s[0] == '#',
    ensures
        comment(s) matches Outcome::Complete(_, rest) ==> rest.len() + 2 <= s.len(),
{
    lemma_any_comment_advances(s);
    if let Outcome::Complete(_, after) = any_comment(s) {
        lemma_lisp_data_advances(after);
    }
}

proof fn lemma_quote_local(s: Seq<char>, other: Seq<char>)
    ensures
        quote(s) matches Outcome::Complete(d, rest) ==> (ends_alike(rest, other) ==> quote(
            front(s, rest) + other,
        ) == Outcome::Complete(d, other)),
    decreases s.len(), 3int,
{
    if let Outcome::Complete(d, rest) = quote(s) {
        if ends_alike(rest, other) {
            let inner = s.skip(1);
            lemma_lisp_data_advances(inner);
            reading_is_local(inner, other);
            let again = front(s, rest) + other;
            assert(again[0] == s[0]);
            assert(again.skip(1) =~= front(inner, rest) + other);
        }
    }
}

/// The elements read again, with the text they stopped at replaced by
/// another that is no datum for the same reason and begins alike.
pub(crate) proof fn lemma_many0_data_local(s: Seq<char>, other: Seq<char>)
    ensures
        many0_data(s) matches Outcome::Complete((items, why), stop) ==> (other.len() > 0
            && other[0] == stop[0] && lisp_data(other) == Outcome::<Datum>::SyntaxError(why)
            ==> many0_data(front(s, stop) + other) == Outcome::Complete((items, why), other)),
    decreases s.len(), 6int,
{
    if let Outcome::Complete((items, why), stop) = many0_data(s) {
        lemma_many0_data_stops(s);
        if other.len() > 0 && other[0] == stop[0] && lisp_data(other) == Outcome::<
            Datum,
        >::SyntaxError(why) {
            lemma_run(s, Class::Blank);
            let blanks = run(s, Class::Blank) as int;
            let here = s.skip(blanks);
            let again = front(s, stop) + other;
            lemma_lisp_data_advances(here);
            match lisp_data(here) {
                Outcome::Complete(first, after) => {
                    lemma_many0_data_stops(after);
                    lemma_many0_data_local(after, other);
                    let next = front(after, stop) + other;
                    lemma_front_of_front(here, after, stop);
                    lemma_front_of_front(s, here, stop);
                    assert(next[0] == after[0]) by {
                        if front(after, stop).len() == 0 {
                            assert(after =~= stop);
                        }
                    }
                    reading_is_local(here, next);
                    let element = front(here, after) + next;
                    assert(front(s, here) =~= s.take(blanks));
                    assert(again =~= s.take(blanks) + element);
                    assert forall|i: int| 0 <= i < blanks implies Class::Blank.has(
                        #[trigger] again[i],
                    ) by {
                        assert(again[i] == s[i]);
                    }
                    assert(again[blanks] == here[0]);
                    lemma_run_exact(again, Class::Blank, blanks);
                    assert(again.skip(blanks) =~= element);
                    assert(lisp_data(element) == Outcome::Complete(first, next));
                },
                _ => {
                    assert(front(s, stop) =~= s.take(blanks));
                    assert forall|i: int| 0 <= i < blanks implies Class::Blank.has(
                        #[trigger] again[i],
                    ) by {
                        assert(again[i] == s[i]);
                    }
                    assert(again[blanks] == other[0]);
                    lemma_run_exact(again, Class::Blank, blanks);
                    assert(again.skip(blanks) =~= other);
                },
            }
        }
    }
}

proof fn lemma_dotted_tail_local(s: Seq<char>, other: Seq<char>)
    ensures
        dotted_tail(s) matches Outcome::Complete(d, rest) ==> dotted_tail(front(s, rest) + other)
            == Outcome::Complete(d, other),
    decreases s.len(), 6int,
{
    if let Outcome::Complete(d, rest) = dotted_tail(s) {
        lemma_lisp_data_advances(s);
        if let Outcome::Complete(last, after) = lisp_data(s) {
            lemma_run(after, Class::Blank);
            let blanks = run(after, Class::Blank) as int;
            let close = after.skip(blanks);
            assert(rest == close.skip(1));
            let next = after.take(blanks + 1) + other;
            assert(next[0] == after[0]);
            reading_is_local(s, next);
            let again = front(s, rest) + other;
            assert(front(s, rest) =~= front(s, after) + after.take(blanks + 1));
            assert(again =~= front(s, after) + next);
            assert forall|i: int| 0 <= i < blanks implies Class::Blank.has(#[trigger] next[i]) by {
                assert(next[i] == after[i]);
            }
            assert(next[blanks] == ')');
            lemma_run_exact(next, Class::Blank, blanks);
            assert(next.skip(blanks).skip(1) =~= other);
            assert(next.skip(blanks)[0] == ')');
        }
    }
}

proof fn lemma_cons_local(s: Seq<char>, other: Seq<char>)
    ensures
        cons(s) matches Outcome::Complete(d, rest) ==> cons(front(s, rest) + other)
            == Outcome::Complete(d, other),
    decreases s.len(), 3int,
{
    if s.len() > 0 && s[0] == '(' {
        let inner = s.skip(1);
        lemma_many0_data_stops(inner);
        if let Outcome::Complete((items, why), stop) = many0_data(inner) {
            if stop[0] == ')' {
                let shut = seq![')'] + other;
                assert(lisp_data(shut) == Outcome::<Datum>::SyntaxError(why)) by {
                    assert(shut[0] == ')');
                    lemma_paren_is_no_datum(stop);
                    lemma_paren_is_no_datum(shut);
                }
                assert(many0_data(front(inner, stop) + shut) == Outcome::Complete(
                    (items, why),
                    shut,
                )) by {
                    assert(shut[0] == ')');
                    lemma_many0_data_local(inner, shut);
                }
                lemma_cons_shut(s, other, items, why, stop);
            } else if stop[0] == '.' {
                let tail = stop.skip(1);
                if let Outcome::Complete(last, rest) = dotted_tail(tail) {
                    lemma_dotted_tail_advances(tail);
                    let again = front(tail, rest) + other;
                    let shut = seq!['.'] + again;
                    assert(dotted_tail(again) == Outcome::Complete(last, other)) by {
                        lemma_dotted_tail_local(tail, other);
                    }
                    assert(lisp_data(shut) == Outcome::<Datum>::SyntaxError(why)) by {
                        assert(shut[0] == '.');
                        assert(front(tail, rest)[0] == tail[0]);
                        assert(shut[1] == stop[1]);
                        lemma_lone_dot(stop);
                        lemma_lone_dot(shut);
                    }
                    assert(many0_data(front(inner, stop) + shut) == Outcome::Complete(
                        (items, why),
                        shut,
                    )) by {
                        assert(shut[0] == '.');
                        lemma_many0_data_local(inner, shut);
                    }
                    lemma_cons_dotted(s, other, items, why, stop, last, rest);
                }
            }
        }
    }
}

/// A list that ends at `)`, read again in front of another text.
proof fn lemma_cons_shut(
    s: Seq<char>,
    other: Seq<char>,
    items: Seq<Datum>,
    why: Reason,
    stop: Seq<char>,
)
    requires
        s.len() > 0,
        s[0] == '(',
        is_rest_of(stop, s.skip(1)),
        stop.len() > 0,
        stop[0] == ')',
        many0_data(s.skip(1)) == Outcome::Complete((items, why), stop),
        many0_data(front(s.skip(1), stop) + (seq![')'] + other)) == Outcome::Complete(
            (items, why),
            seq![')'] + other,
        ),
    ensures
        cons(s) == Outcome::Complete(chain(items, Datum::Nil), stop.skip(1)),
        cons(front(s, stop.skip(1)) + other) == Outcome::Complete(chain(items, Datum::Nil), other),
{
    let inner = s.skip(1);
    let shut = seq![')'] + other;
    let again = front(s, stop.skip(1)) + other;
    lemma_front_past(inner, stop, 1);
    assert(stop.take(1) =~= seq![')']);
    assert(again[0] == '(');
    assert(again.skip(1) =~= front(inner, stop) + shut);
    assert(shut[0] == ')');
    assert(shut.skip(1) =~= other);
}

/// A list that ends after a lone `.`, read again in front of another text.
proof fn lemma_cons_dotted(
    s: Seq<char>,
    other: Seq<char>,
    items: Seq<Datum>,
    why: Reason,
    stop: Seq<char>,
    last: Datum,
    rest: Seq<char>,
)
    requires
        s.len() > 0,
        s[0] == '(',
        is_rest_of(stop, s.skip(1)),
        stop.len() > 0,
        stop[0] == '.',
        is_rest_of(rest, stop.skip(1)),
        rest.len() < stop.skip(1).len(),
        many0_data(s.skip(1)) == Outcome::Complete((items, why), stop),
        dotted_tail(stop.skip(1)) == Outcome::Complete(last, rest),
        many0_data(
            front(s.skip(1), stop) + (seq!['.'] + (front(stop.skip(1), rest) + other)),
        ) == Outcome::Complete((items, why), seq!['.'] + (front(stop.skip(1), rest) + other)),
        dotted_tail(front(stop.skip(1), rest) + other) == Outcome::Complete(last, other),
    ensures
        cons(s) == Outcome::Complete(chain(items, last), rest),
        cons(front(s, rest) + other) == Outcome::Complete(chain(items, last), other),
{
    let inner = s.skip(1);
    let tail = stop.skip(1);
    let shut = seq!['.'] + (front(tail, rest) + other);
    let again = front(s, rest) + other;
    lemma_rest_of_rest(rest, tail, stop);
    lemma_front_of_front(inner, stop, rest);
    assert(front(stop, rest) =~= seq!['.'] + front(tail, rest));
    lemma_rest_of_rest(rest, stop, inner);
    assert(again[0] == '(');
    assert(again.skip(1) =~= front(inner, stop) + shut);
    assert(shut[0] == '.');
    assert(shut.skip(1) =~= front(tail, rest) + other);
}

proof fn lemma_vector_rest_local(s: Seq<char>, other: Seq<char>)
    ensures
        vector_rest(s) matches Outcome::Complete(d, rest) ==> vector_rest(front(s, rest) + other)
            == Outcome::Complete(d, other),
    decreases s.len(), 7int,
{
    if let Outcome::Complete(d, rest) = vector_rest(s) {
        lemma_many0_data_stops(s);
        if let Outcome::Complete((items, why), stop) = many0_data(s) {
            let shut = seq![')'] + other;
            let again = front(s, rest) + other;
            assert(shut[0] == ')');
            assert(shut.skip(1) =~= other);
            assert(again == front(s, stop) + shut) by {
                lemma_front_past(s, stop, 1);
                assert(stop.take(1) =~= seq![')']);
                assert(again =~= front(s, stop) + shut);
            }
            assert(lisp_data(shut) == Outcome::<Datum>::SyntaxError(why)) by {
                lemma_paren_is_no_datum(stop);
                lemma_paren_is_no_datum(shut);
            }
            assert(many0_data(again) == Outcome::Complete((items, why), shut)) by {
                lemma_many0_data_local(s, shut);
            }
        }
    }
}

proof fn lemma_sharp_local(s: Seq<char>, other: Seq<char>)
    ensures
        sharp(s) matches Outcome::Complete(d, rest) ==> (ends_alike(rest, other) ==> sharp(
            front(s, rest) + other,
        ) == Outcome::Complete(d, other)),
    decreases s.len(), 3int,
{
    if let Outcome::Complete(d, rest) = sharp(s) {
        if ends_alike(rest, other) {
            lemma_sharp_uses_two(s);
            let inner = s.skip(2);
            let again = front(s, rest) + other;
            let c = s[1];
            assert(again[0] == s[0]);
            assert(again[1] == s[1]);
            if c == 'f' || c == 'F' || c == 't' || c == 'T' {
                assert(again.skip(2) =~= other);
            } else {
                if c == 'b' || c == 'B' {
                    lemma_parse_num_advances(inner, Radix::Binary);
                    lemma_parse_num_local(inner, other, Radix::Binary);
                } else if c == 'o' || c == 'O' {
                    lemma_parse_num_advances(inner, Radix::Octal);
                    lemma_parse_num_local(inner, other, Radix::Octal);
                } else if c == 'd' || c == 'D' {
                    lemma_parse_num_advances(inner, Radix::Decimal);
                    lemma_parse_num_local(inner, other, Radix::Decimal);
                } else if c == 'x' || c == 'X' {
                    lemma_parse_num_advances(inner, Radix::Hex);
                    lemma_parse_num_local(inner, other, Radix::Hex);
                } else {
                    lemma_vector_rest_advances(inner);
                    lemma_vector_rest_local(inner, other);
                }
                assert(again.skip(2) =~= front(inner, rest) + other);
            }
        }
    }
}

proof fn lemma_datum_comment_local(s: Seq<char>, other: Seq<char>)
    ensures
        datum_comment(s) matches Outcome::Complete(_, rest) ==> (ends_alike(rest, other)
            ==> datum_comment(front(s, rest) + other) == Outcome::Complete((), other)),
    decreases s.len(), 1int,
{
    if let Outcome::Complete(_, rest) = datum_comment(s) {
        if ends_alike(rest, other) {
            let word = seq!['#', ';'];
            let inner = s.skip(2);
            lemma_lisp_data_advances(inner);
            reading_is_local(inner, other);
            let again = front(s, rest) + other;
            assert(again.subrange(0, 2) =~= s.subrange(0, 2));
            assert(word.is_prefix_of(again));
            assert(again.skip(2) =~= front(inner, rest) + other);
        }
    }
}

/// A text that begins as one that begins no block comment begins none
/// either.
proof fn lemma_block_comment_refuses(s: Seq<char>, again: Seq<char>)
    requires
        block_comment(s) is SyntaxError,
        again.len() > 0,
        s.len() > 0 ==> again[0] == s[0],
        s.len() > 0 && s[0] == '#' ==> s.len() >= 2 ==> again.len() >= 2 && again[1] == s[1],
    ensures
        block_comment(again) is SyntaxError,
{
    reveal(block_comment);
    let open = seq!['#', '|'];
    let inside = s.skip(2);
    if open.is_prefix_of(s) {
        lemma_find(inside, seq!['|', '#']);
    } else {
        assert(s.len() > 0) by {
            if s.len() == 0 {
                assert(s.is_prefix_of(open));
            }
        }
        if s[0] != '#' {
            lemma_tag_mismatch(again, open, 0);
        } else {
            if s.len() < 2 {
                assert(s =~= open.subrange(0, 1));
            }
            if s[1] == '|' {
                assert(s.subrange(0, 2) =~= open);
            }
            lemma_tag_mismatch(again, open, 1);
        }
    }
}

/// A text that begins as one that begins no line comment begins none either.
proof fn lemma_line_comment_refuses(s: Seq<char>, again: Seq<char>)
    requires
        line_comment(s) is SyntaxError,
        again.len() > 0,
        s.len() > 0 ==> again[0] == s[0],
    ensures
        line_comment(again) is SyntaxError,
{
    reveal(line_comment);
    if s.len() > 0 && s[0] == ';' {
        let inside = s.skip(1);
        let feed = seq!['\n'];
        lemma_find(inside, feed);
        if find(inside, feed) >= 0 {
            let close = inside.skip(find(inside, feed));
            assert(feed.is_prefix_of(close));
        }
    }
}

pub(crate) proof fn lemma_any_comment_local(s: Seq<char>, other: Seq<char>)
    ensures
        any_comment(s) matches Outcome::Complete(_, rest) ==> (ends_alike(rest, other)
            ==> any_comment(front(s, rest) + other) == Outcome::Complete((), other)),
    decreases s.len(), 2int,
{
    if let Outcome::Complete(_, rest) = any_comment(s) {
        if ends_alike(rest, other) {
            lemma_any_comment_advances(s);
            let again = front(s, rest) + other;
            assert(again[0] == s[0]);
            if block_comment(s) is Complete {
                lemma_block_comment_local(s, other);
            } else {
                if line_comment(s) is Complete {
                    lemma_line_comment_local(s, other);
                    assert(s[0] == ';') by {
                        reveal(line_comment);
                    }
                } else {
                    lemma_datum_comment_local(s, other);
                    lemma_datum_comment_advances(s);
                    assert(s.len() >= 2 && rest.len() + 2 < s.len()) by {
                        lemma_lisp_data_advances(s.skip(2));
                    }
                    assert(again[1] == s[1]);
                    lemma_line_comment_refuses(s, again);
                }
                lemma_block_comment_refuses(s, again);
            }
        }
    }
}

proof fn lemma_comment_local(s: Seq<char>, other: Seq<char>)
    ensures
        comment(s) matches Outcome::Complete(d, rest) ==> (ends_alike(rest, other) ==> comment(
            front(s, rest) + other,
        ) == Outcome::Complete(d, other)),
    decreases s.len(), 3int,
{
    if let Outcome::Complete(d, rest) = comment(s) {
        if ends_alike(rest, other) {
            lemma_any_comment_advances(s);
            if let Outcome::Complete(_, after) = any_comment(s) {
                lemma_lisp_data_advances(after);
                lemma_front_of_front(s, after, rest);
                let next = front(after, rest) + other;
                assert(next[0] == after[0]);
                lemma_any_comment_local(s, next);
                reading_is_local(after, other);
                assert(front(s, rest) + other =~= front(s, after) + next);
            }
        }
    }
}

} // verus!
