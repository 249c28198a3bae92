//! What is printed reads back as the same datum, with or without further
//! blanks between its tokens.

use vstd::prelude::*;
use crate::data::{is_symbol_name, well_formed, Datum};
use crate::grammar::{
    chain, cons, digits_value, dotted_tail, escaped_char, form, lisp_data, many0_data, num,
    parse_num, sharp, string, string_rest, symbol, unescape, vector_rest,
};
use crate::local::{lemma_lone_dot, lemma_paren_is_no_datum};
use crate::outcome::{Outcome, Reason};
use crate::blanks::{
    all_blank, blanks_before_datum, blanks_before_elements, lemma_blank_run,
    lemma_no_blank_in_front,
};
use crate::progress::{lemma_lisp_data_advances, lemma_many0_data_stops};
use crate::render::{decimal, digit_char, escape, print, print_cdr, print_each, print_num};
use crate::token::{
    digit_value, is_blank, is_digit, is_token, lemma_run_exact, many0, one, Class, Radix,
};

verus! {

/// Whether `tail` can follow the text of `d` without running into it: a
/// number must not be followed by a digit nor a symbol by a symbol character,
/// and either must be followed by something.
pub open spec fn closes(d: Datum, tail: Seq<char>) -> bool {
    match d {
        Datum::Num(_) => tail.len() > 0 && !is_digit(tail[0], Radix::Decimal),
        Datum::Symbol(_) => tail.len() > 0 && !is_token(tail[0]),
        _ => true,
    }
}

/// The decimal digits of a number are digits, and spell that number.
proof fn lemma_decimal(n: nat)
    ensures
        decimal(n).len() > 0,
        forall|i: int| 0 <= i < decimal(n).len() ==> is_digit(#[trigger] decimal(n)[i], Radix::Decimal),
        digits_value(decimal(n), Radix::Decimal) == n,
    decreases n,
{
    let last = digit_char((n % 10) as int);
    assert(digit_value(last) == n % 10);
    if n < 10 {
        let text = seq![last];
        assert(text.drop_last() =~= Seq::<char>::empty());
        assert(text.last() == last);
        assert(digits_value(text.drop_last(), Radix::Decimal) == 0);
    } else {
        lemma_decimal(n / 10);
        let front = decimal(n / 10);
        let text = front.push(last);
        assert(text.drop_last() =~= front);
        assert(text.last() == last);
        assert forall|i: int| 0 <= i < text.len() implies is_digit(
            #[trigger] text[i],
            Radix::Decimal,
        ) by {
            if i < front.len() {
                assert(text[i] == front[i]);
            }
        }
    }
}

/// The text of an integer reads back as that integer.
proof fn lemma_num_reads_back(n: i64, tail: Seq<char>)
    requires
        tail.len() > 0,
        !is_digit(tail[0], Radix::Decimal),
    ensures
        num(print_num(n as int) + tail) == Outcome::Complete(Datum::Num(n), tail),
        !is_blank((print_num(n as int) + tail)[0]),
        (print_num(n as int) + tail)[0] == '-' || is_digit(
            (print_num(n as int) + tail)[0],
            Radix::Decimal,
        ),
{
    reveal(parse_num);
    let magnitude: nat = if n < 0 {
        (-n) as nat
    } else {
        n as nat
    };
    lemma_decimal(magnitude);
    let digits = decimal(magnitude);
    let s = print_num(n as int) + tail;
    let body = digits + tail;
    assert forall|i: int| 0 <= i < digits.len() implies is_digit(
        #[trigger] body[i],
        Radix::Decimal,
    ) by {
        assert(body[i] == digits[i]);
    }
    assert(body[digits.len() as int] == tail[0]);
    lemma_run_exact(body, Class::Digit(Radix::Decimal), digits.len() as int);
    assert(body.take(digits.len() as int) =~= digits);
    assert(body.skip(digits.len() as int) =~= tail);
    assert(body[0] == digits[0]);
    if n < 0 {
        assert(s =~= seq!['-'] + body);
        assert(s[0] == '-');
        assert(s.skip(1) =~= body);
    } else {
        assert(s =~= body);
        assert(is_digit(digits[0], Radix::Decimal));
        assert(s[0] != '-');
    }
}

/// The text of a symbol reads back as that symbol.
proof fn lemma_symbol_reads_back(name: Seq<char>, tail: Seq<char>)
    requires
        is_symbol_name(name),
        tail.len() > 0,
        !is_token(tail[0]),
    ensures
        form(name + tail) == Outcome::Complete(Datum::Symbol(name), tail),
        !is_blank((name + tail)[0]),
{
    reveal(symbol);
    reveal(parse_num);
    let s = name + tail;
    assert(s[0] == name[0]);
    assert(is_token(name[0]));
    assert forall|i: int| 0 <= i < name.len() implies Class::Token.has(#[trigger] s[i]) by {
        assert(s[i] == name[i]);
    }
    assert(s[name.len() as int] == tail[0]);
    lemma_run_exact(s, Class::Token, name.len() as int);
    assert(s.take(name.len() as int) =~= name);
    assert(s.skip(name.len() as int) =~= tail);
    assert(symbol(s) == Outcome::Complete(Datum::Symbol(name), tail));
    // the number rule does not take it
    if s[0] == '-' {
        let body = s.skip(1);
        assert(body.len() > 0);
        if name.len() > 1 {
            assert(body[0] == name[1]);
        } else {
            assert(body[0] == tail[0]);
        }
        assert(!is_digit(body[0], Radix::Decimal));
        lemma_run_exact(body, Class::Digit(Radix::Decimal), 0);
    } else {
        lemma_run_exact(s, Class::Digit(Radix::Decimal), 0);
    }
    assert(num(s) == Outcome::<Datum>::SyntaxError(Reason::NoMatch));
}

/// Escaped text reads back, up to the closing quote, as the text.
proof fn lemma_string_reads_back(text: Seq<char>, tail: Seq<char>)
    ensures
        string_rest(escape(text) + (seq!['"'] + tail)) == Outcome::Complete(text, tail),
    decreases text.len(),
{
    let s = escape(text) + (seq!['"'] + tail);
    if text.len() == 0 {
        assert(s =~= seq!['"'] + tail);
        assert(s[0] == '"');
        assert(s.skip(1) =~= tail);
        assert(text =~= Seq::<char>::empty());
    } else {
        let c = text[0];
        let later = text.skip(1);
        lemma_string_reads_back(later, tail);
        let after = escape(later) + (seq!['"'] + tail);
        assert(seq![c] + later =~= text);
        if c == '"' || c == '\\' {
            assert(s =~= seq!['\\', c] + after);
            assert(s[0] == '\\');
            assert(s[1] == c);
            assert(s.skip(2) =~= after);
            assert(unescape(c) == Some(c));
            assert(escaped_char(s) == Outcome::Complete(c, after));
        } else {
            assert(s =~= seq![c] + after);
            assert(s[0] == c);
            assert(s.skip(1) =~= after);
        }
    }
}

/// `)` begins no datum, and so ends the elements.
proof fn lemma_close_is_no_datum(tail: Seq<char>)
    ensures
        many0_data(seq![')'] + tail) == Outcome::Complete(
            (Seq::<Datum>::empty(), Reason::NoMatch),
            seq![')'] + tail,
        ),
{
    let s = seq![')'] + tail;
    assert(s[0] == ')');
    lemma_run_exact(s, Class::Blank, 0);
    assert(s.skip(0) =~= s);
    lemma_paren_is_no_datum(s);
}

/// A lone `.` is no datum, and so ends the elements.
proof fn lemma_dot_is_no_datum(tail: Seq<char>)
    ensures
        many0_data(seq!['.', ' '] + tail) == Outcome::Complete(
            (Seq::<Datum>::empty(), Reason::ReservedDot),
            seq!['.', ' '] + tail,
        ),
{
    let s = seq!['.', ' '] + tail;
    assert(s[0] == '.');
    assert(s[1] == ' ');
    lemma_run_exact(s, Class::Blank, 0);
    assert(s.skip(0) =~= s);
    lemma_lone_dot(s);
}

/// The elements of the list `d`: the first fields of its chain of pairs.
spec fn items_of(d: Datum) -> Seq<Datum>
    decreases d,
{
    match d {
        Datum::Cons(first, rest) => seq![*first] + items_of(*rest),
        _ => Seq::empty(),
    }
}

/// What the chain of pairs of `d` ends in: `Nil` for a proper list.
spec fn end_of(d: Datum) -> Datum
    decreases d,
{
    match d {
        Datum::Cons(_, rest) => end_of(*rest),
        _ => d,
    }
}

/// Every datum is the chain of its elements and its end.
proof fn lemma_chain_rebuilds(d: Datum)
    ensures
        chain(items_of(d), end_of(d)) == d,
        !(end_of(d) is Cons),
    decreases d,
{
    match d {
        Datum::Cons(first, rest) => {
            lemma_chain_rebuilds(*rest);
            let items = items_of(d);
            assert(items[0] == *first);
            assert(items.skip(1) =~= items_of(*rest));
        },
        _ => {},
    }
}

/// The blanks to put in front of each text: a choice of further blanks for
/// every gap between two tokens, told apart by what follows the gap.
pub type Pad = spec_fn(Seq<char>) -> Seq<char>;

/// Whether `pad` puts in nothing but blanks.
pub open spec fn pads_blanks(pad: Pad) -> bool {
    forall|x: Seq<char>| all_blank(#[trigger] pad(x))
}

/// The choice that puts in nothing.
pub open spec fn no_pad() -> Pad {
    |x: Seq<char>| Seq::<char>::empty()
}

/// The text `x` with the blanks of `pad` in front.
pub open spec fn padded(pad: Pad, x: Seq<char>) -> Seq<char> {
    pad(x) + x
}

/// The canonical text of `d` followed by `tail`, with the blanks of `pad` put
/// in at every gap between two tokens of `d`.
pub open spec fn spaced(d: Datum, tail: Seq<char>, pad: Pad) -> Seq<char>
    decreases d, 0int,
{
    match d {
        Datum::Nil => seq!['('] + padded(pad, seq![')'] + tail),
        Datum::Vector(items) => if items.len() == 0 {
            seq!['#', '('] + padded(pad, seq![')'] + tail)
        } else {
            seq!['#', '('] + padded(
                pad,
                spaced(
                    items[0],
                    spaced_each(items.skip(1), padded(pad, seq![')'] + tail), pad),
                    pad,
                ),
            )
        },
        Datum::Cons(first, rest) => seq!['('] + padded(
            pad,
            spaced(*first, spaced_cdr(*rest, padded(pad, seq![')'] + tail), pad), pad),
        ),
        _ => print(d) + tail,
    }
}

/// The text of the rest `d` of a list followed by `after`, with the blanks
/// of `pad` put in.
pub open spec fn spaced_cdr(d: Datum, after: Seq<char>, pad: Pad) -> Seq<char>
    decreases d, 1int,
{
    match d {
        Datum::Nil => after,
        Datum::Cons(first, rest) => seq![' '] + padded(
            pad,
            spaced(*first, spaced_cdr(*rest, after, pad), pad),
        ),
        _ => seq![' '] + padded(pad, seq!['.', ' '] + padded(pad, spaced(d, after, pad))),
    }
}

/// The texts of `items`, each after one space, followed by `after`, with the
/// blanks of `pad` put in.
pub open spec fn spaced_each(items: Seq<Datum>, after: Seq<char>, pad: Pad) -> Seq<char>
    decreases items, 0int,
{
    if items.len() == 0 {
        after
    } else {
        seq![' '] + padded(pad, spaced(items[0], spaced_each(items.skip(1), after, pad), pad))
    }
}

/// Where reading stops after the elements of the rest `d` of a list.
spec fn cdr_stop(d: Datum, tail: Seq<char>, pad: Pad) -> Seq<char> {
    if end_of(d) is Nil {
        seq![')'] + tail
    } else {
        seq!['.', ' '] + padded(pad, spaced(end_of(d), padded(pad, seq![')'] + tail), pad))
    }
}

/// Why reading stops after the elements of the rest `d` of a list.
spec fn cdr_why(d: Datum) -> Reason {
    if end_of(d) is Nil {
        Reason::NoMatch
    } else {
        Reason::ReservedDot
    }
}

/// The text begins with a blank or with `)`, which ends every atom.
spec fn starts_closed(x: Seq<char>) -> bool {
    x.len() > 0 && (is_blank(x[0]) || x[0] == ')')
}

/// The elements read from `rest`, with `first` before them.
spec fn with_first(first: Datum, rest: Outcome<(Seq<Datum>, Reason)>) -> Outcome<
    (Seq<Datum>, Reason),
> {
    match rest {
        Outcome::Complete((more, why), stop) => Outcome::Complete((seq![first] + more, why), stop),
        Outcome::Incomplete => Outcome::Incomplete,
        Outcome::SyntaxError(reason) => Outcome::SyntaxError(reason),
    }
}

/// Where a datum stands after blanks, the elements are that datum and the
/// elements after it.
proof fn lemma_first_element(b: Seq<char>, s: Seq<char>, first: Datum, after: Seq<char>)
    requires
        all_blank(b),
        s.len() > 0,
        !is_blank(s[0]),
        lisp_data(s) == Outcome::Complete(first, after),
    ensures
        many0_data(b + s) == with_first(first, many0_data(after)),
{
    blanks_before_elements(b, s);
    lemma_lisp_data_advances(s);
    lemma_run_exact(s, Class::Blank, 0);
    assert(s.skip(0) =~= s);
}

/// A text in front of another begins as the first does, and the other is
/// what is left after it.
proof fn lemma_front(front: Seq<char>, back: Seq<char>)
    ensures
        (front + back).len() == front.len() + back.len(),
        front.len() > 0 ==> (front + back)[0] == front[0],
        front.len() == 0 ==> front + back == back,
        (front + back).skip(front.len() as int) == back,
{
    assert((front + back).skip(front.len() as int) =~= back);
    if front.len() == 0 {
        assert(front + back =~= back);
    }
}

/// Blanks and `)` begin with a blank or with `)`.
proof fn lemma_padded_close(b: Seq<char>, tail: Seq<char>)
    requires
        all_blank(b),
    ensures
        starts_closed(b + (seq![')'] + tail)),
{
    let close = seq![')'] + tail;
    assert(close[0] == ')');
    if b.len() > 0 {
        assert((b + close)[0] == b[0]);
    } else {
        assert(b + close =~= close);
    }
}

/// `#t` and `#f` read back.
proof fn lemma_bool_reads_back(b: bool, tail: Seq<char>)
    ensures
        lisp_data(print(Datum::Bool(b)) + tail) == Outcome::Complete(Datum::Bool(b), tail),
        print(Datum::Bool(b))[0] == '#',
{
    let s = print(Datum::Bool(b)) + tail;
    let letter = if b {
        't'
    } else {
        'f'
    };
    assert(s =~= seq!['#', letter] + tail);
    assert(s[0] == '#');
    assert(s[1] == letter);
    assert(s.skip(2) =~= tail);
    assert(sharp(s) == Outcome::Complete(Datum::Bool(b), tail));
    lemma_no_blank_in_front(s);
}

/// A string literal reads back.
proof fn lemma_text_reads_back(text: Seq<char>, tail: Seq<char>)
    ensures
        lisp_data(print(Datum::LispString(text)) + tail) == Outcome::Complete(
            Datum::LispString(text),
            tail,
        ),
        print(Datum::LispString(text))[0] == '"',
{
    reveal(string);
    let d = Datum::LispString(text);
    let s = print(d) + tail;
    lemma_string_reads_back(text, tail);
    let inside = escape(text) + (seq!['"'] + tail);
    assert(s =~= seq!['"'] + inside);
    assert(s[0] == '"');
    assert(s.skip(1) =~= inside);
    assert(string(s) == Outcome::Complete(d, tail));
    lemma_no_blank_in_front(s);
}

/// The text of an integer reads back.
proof fn lemma_num_read(n: i64, tail: Seq<char>)
    requires
        closes(Datum::Num(n), tail),
    ensures
        lisp_data(print(Datum::Num(n)) + tail) == Outcome::Complete(Datum::Num(n), tail),
        print(Datum::Num(n)).len() > 0,
        !is_blank(print(Datum::Num(n))[0]),
{
    let s = print(Datum::Num(n)) + tail;
    lemma_num_reads_back(n, tail);
    lemma_decimal(
        if n < 0 {
            (-n) as nat
        } else {
            n as nat
        },
    );
    lemma_front(print(Datum::Num(n)), tail);
    lemma_no_blank_in_front(s);
}

/// The text of a symbol reads back.
proof fn lemma_symbol_read(name: Seq<char>, tail: Seq<char>)
    requires
        is_symbol_name(name),
        closes(Datum::Symbol(name), tail),
    ensures
        lisp_data(name + tail) == Outcome::Complete(Datum::Symbol(name), tail),
{
    lemma_symbol_reads_back(name, tail);
    lemma_front(name, tail);
    lemma_no_blank_in_front(name + tail);
}

/// `)` after blanks ends the elements.
proof fn lemma_close_stops(b: Seq<char>, tail: Seq<char>)
    requires
        all_blank(b),
    ensures
        many0_data(b + (seq![')'] + tail)) == Outcome::Complete(
            (Seq::<Datum>::empty(), Reason::NoMatch),
            seq![')'] + tail,
        ),
{
    lemma_close_is_no_datum(tail);
    blanks_before_elements(b, seq![')'] + tail);
}

/// A lone `.` after blanks ends the elements.
proof fn lemma_dot_stops(b: Seq<char>, tail: Seq<char>)
    requires
        all_blank(b),
    ensures
        many0_data(b + (seq!['.', ' '] + tail)) == Outcome::Complete(
            (Seq::<Datum>::empty(), Reason::ReservedDot),
            seq!['.', ' '] + tail,
        ),
{
    lemma_dot_is_no_datum(tail);
    blanks_before_elements(b, seq!['.', ' '] + tail);
}

/// `#(`, elements that stop at `)`, and that `)` read as a vector.
proof fn lemma_vector_closes(s: Seq<char>, inside: Seq<char>, items: Seq<Datum>, tail: Seq<char>)
    requires
        s.len() >= 2,
        s[0] == '#',
        s[1] == '(',
        s.skip(2) == inside,
        many0_data(inside) == Outcome::Complete((items, Reason::NoMatch), seq![')'] + tail),
    ensures
        lisp_data(s) == Outcome::Complete(Datum::Vector(items), tail),
{
    let close = seq![')'] + tail;
    assert(close[0] == ')');
    assert(close.skip(1) =~= tail);
    assert(vector_rest(inside) == Outcome::Complete(Datum::Vector(items), tail));
    assert(sharp(s) == Outcome::Complete(Datum::Vector(items), tail));
    lemma_no_blank_in_front(s);
}

/// `(`, elements that stop at `)`, and that `)` read as a proper list.
proof fn lemma_list_closes(
    s: Seq<char>,
    inside: Seq<char>,
    items: Seq<Datum>,
    why: Reason,
    tail: Seq<char>,
)
    requires
        s.len() >= 1,
        s[0] == '(',
        s.skip(1) == inside,
        many0_data(inside) == Outcome::Complete((items, why), seq![')'] + tail),
    ensures
        lisp_data(s) == Outcome::Complete(chain(items, Datum::Nil), tail),
{
    let close = seq![')'] + tail;
    assert(close[0] == ')');
    assert(close.skip(1) =~= tail);
    lemma_many0_data_stops(inside);
    assert(cons(s) == Outcome::Complete(chain(items, Datum::Nil), tail));
    lemma_no_blank_in_front(s);
}

/// `(`, elements that stop at a lone `.`, the last datum and `)` read as a
/// list that ends in that datum.
proof fn lemma_dotted_list_closes(
    s: Seq<char>,
    inside: Seq<char>,
    items: Seq<Datum>,
    why: Reason,
    stop: Seq<char>,
    end: Datum,
    tail: Seq<char>,
)
    requires
        s.len() >= 1,
        s[0] == '(',
        s.skip(1) == inside,
        many0_data(inside) == Outcome::Complete((items, why), stop),
        stop.len() > 0,
        stop[0] == '.',
        dotted_tail(stop.skip(1)) == Outcome::Complete(end, tail),
    ensures
        lisp_data(s) == Outcome::Complete(chain(items, end), tail),
{
    lemma_many0_data_stops(inside);
    assert(cons(s) == Outcome::Complete(chain(items, end), tail));
    lemma_no_blank_in_front(s);
}

/// After the lone `.`, a datum that reads back, blanks and `)` are the end of
/// the list.
proof fn lemma_tail_closes(
    b: Seq<char>,
    written: Seq<char>,
    end: Datum,
    gap: Seq<char>,
    tail: Seq<char>,
)
    requires
        all_blank(b),
        all_blank(gap),
        lisp_data(written) == Outcome::Complete(end, gap + (seq![')'] + tail)),
    ensures
        dotted_tail(b + written) == Outcome::Complete(end, tail),
{
    let close = seq![')'] + tail;
    let after = gap + close;
    blanks_before_datum(b, written);
    assert(close[0] == ')');
    lemma_run_exact(close, Class::Blank, 0);
    lemma_blank_run(gap, close);
    assert(after.skip(gap.len() as int) =~= close);
    assert(close.skip(1) =~= tail);
    assert(many0(after, Class::Blank) == Outcome::Complete(after.take(gap.len() as int), close));
    assert(one(close, ')') == Outcome::Complete(')', tail));
}

/// A space and blanks are blanks.
proof fn lemma_space_and_blanks(b: Seq<char>)
    requires
        all_blank(b),
    ensures
        all_blank(seq![' '] + b),
{
    let all = seq![' '] + b;
    assert forall|i: int| 0 <= i < all.len() implies is_blank(#[trigger] all[i]) by {
        if i > 0 {
            assert(all[i] == b[i - 1]);
        }
    }
}

/// The text of a well-formed datum with further blanks between its tokens,
/// followed by what closes it, reads back as the datum and leaves what
/// follows.
proof fn lemma_read_back(d: Datum, tail: Seq<char>, pad: Pad)
    requires
        well_formed(d),
        closes(d, tail),
        pads_blanks(pad),
    ensures
        lisp_data(spaced(d, tail, pad)) == Outcome::Complete(d, tail),
        spaced(d, tail, pad).len() > 0,
        !is_blank(spaced(d, tail, pad)[0]),
    decreases d, 0int,
{
    let s = spaced(d, tail, pad);
    let close = seq![')'] + tail;
    let after = padded(pad, close);
    assert(all_blank(pad(close)));
    match d {
        Datum::Nil => {
            lemma_close_stops(pad(close), tail);
            assert(s.skip(1) =~= after);
            lemma_list_closes(s, after, Seq::empty(), Reason::NoMatch, tail);
        },
        Datum::Bool(b) => {
            lemma_bool_reads_back(b, tail);
            lemma_front(print(d), tail);
        },
        Datum::Num(n) => {
            lemma_num_read(n, tail);
            lemma_front(print(d), tail);
        },
        Datum::Symbol(name) => {
            lemma_symbol_read(name, tail);
            lemma_front(name, tail);
        },
        Datum::LispString(text) => {
            lemma_text_reads_back(text, tail);
            lemma_front(print(d), tail);
        },
        Datum::Vector(items) => {
            if items.len() == 0 {
                lemma_close_stops(pad(close), tail);
                assert(s.skip(2) =~= after);
                assert(items =~= Seq::<Datum>::empty());
                lemma_vector_closes(s, after, items, tail);
            } else {
                let later = items.skip(1);
                let tail1 = spaced_each(later, after, pad);
                let element = spaced(items[0], tail1, pad);
                let inside = padded(pad, element);
                assert forall|i: int| 0 <= i < later.len() implies well_formed(
                    #[trigger] later[i],
                ) by {
                    assert(later[i] == items[i + 1]);
                }
                lemma_each_reads_back(later, tail, pad);
                lemma_read_back(items[0], tail1, pad);
                assert(all_blank(pad(element)));
                lemma_first_element(pad(element), element, items[0], tail1);
                assert(seq![items[0]] + later =~= items);
                assert(s.skip(2) =~= inside);
                lemma_vector_closes(s, inside, items, tail);
            }
        },
        Datum::Cons(first, rest) => {
            let tail1 = spaced_cdr(*rest, after, pad);
            let element = spaced(*first, tail1, pad);
            let inside = padded(pad, element);
            lemma_cdr_reads_back(*rest, tail, pad);
            lemma_read_back(*first, tail1, pad);
            assert(all_blank(pad(element)));
            lemma_first_element(pad(element), element, *first, tail1);
            let items = seq![*first] + items_of(*rest);
            let end = end_of(*rest);
            lemma_chain_rebuilds(*rest);
            assert(chain(items, end) == d) by {
                assert(items[0] == *first);
                assert(items.skip(1) =~= items_of(*rest));
            }
            assert(s.skip(1) =~= inside);
            if end is Nil {
                lemma_list_closes(s, inside, items, cdr_why(*rest), tail);
            } else {
                let stop = cdr_stop(*rest, tail, pad);
                assert(stop[0] == '.');
                lemma_dotted_list_closes(s, inside, items, cdr_why(*rest), stop, end, tail);
            }
        },
    }
}

/// The text of the rest of a list reads back as its elements, up to the `)`
/// or the lone `.` that follows them; and after the `.` the end of the list
/// reads back.
proof fn lemma_cdr_reads_back(d: Datum, tail: Seq<char>, pad: Pad)
    requires
        well_formed(d),
        pads_blanks(pad),
    ensures
        many0_data(spaced_cdr(d, padded(pad, seq![')'] + tail), pad)) == Outcome::Complete(
            (items_of(d), cdr_why(d)),
            cdr_stop(d, tail, pad),
        ),
        !(end_of(d) is Nil) ==> dotted_tail(cdr_stop(d, tail, pad).skip(1)) == Outcome::Complete(
            end_of(d),
            tail,
        ),
        starts_closed(spaced_cdr(d, padded(pad, seq![')'] + tail), pad)),
    decreases d, 1int,
{
    let close = seq![')'] + tail;
    let after = padded(pad, close);
    let s = spaced_cdr(d, after, pad);
    assert(all_blank(pad(close)));
    match d {
        Datum::Nil => {
            lemma_close_stops(pad(close), tail);
            lemma_padded_close(pad(close), tail);
        },
        Datum::Cons(first, rest) => {
            let tail1 = spaced_cdr(*rest, after, pad);
            let element = spaced(*first, tail1, pad);
            lemma_cdr_reads_back(*rest, tail, pad);
            lemma_read_back(*first, tail1, pad);
            assert(all_blank(pad(element)));
            lemma_space_and_blanks(pad(element));
            lemma_first_element(seq![' '] + pad(element), element, *first, tail1);
            assert(s =~= (seq![' '] + pad(element)) + element);
            assert(s[0] == ' ');
        },
        _ => {
            let written = spaced(d, after, pad);
            let dotted = seq!['.', ' '] + padded(pad, written);
            lemma_padded_close(pad(close), tail);
            lemma_read_back(d, after, pad);
            assert(all_blank(pad(dotted)));
            assert(all_blank(pad(written)));
            lemma_space_and_blanks(pad(dotted));
            lemma_dot_stops(seq![' '] + pad(dotted), padded(pad, written));
            assert(s =~= (seq![' '] + pad(dotted)) + dotted);
            assert(s[0] == ' ');
            assert(items_of(d) =~= Seq::<Datum>::empty());
            lemma_space_and_blanks(pad(written));
            lemma_tail_closes(seq![' '] + pad(written), written, d, pad(close), tail);
            assert(dotted.skip(1) =~= (seq![' '] + pad(written)) + written);
        },
    }
}

/// The texts of the elements of a vector after the first read back as those
/// elements, up to the `)` that follows them.
proof fn lemma_each_reads_back(items: Seq<Datum>, tail: Seq<char>, pad: Pad)
    requires
        forall|i: int| 0 <= i < items.len() ==> well_formed(#[trigger] items[i]),
        pads_blanks(pad),
    ensures
        many0_data(spaced_each(items, padded(pad, seq![')'] + tail), pad)) == Outcome::Complete(
            (items, Reason::NoMatch),
            seq![')'] + tail,
        ),
        starts_closed(spaced_each(items, padded(pad, seq![')'] + tail), pad)),
    decreases items, 0int,
{
    let close = seq![')'] + tail;
    let after = padded(pad, close);
    let s = spaced_each(items, after, pad);
    assert(all_blank(pad(close)));
    if items.len() == 0 {
        lemma_close_stops(pad(close), tail);
        lemma_padded_close(pad(close), tail);
        assert(items =~= Seq::<Datum>::empty());
    } else {
        let later = items.skip(1);
        let tail1 = spaced_each(later, after, pad);
        let element = spaced(items[0], tail1, pad);
        assert forall|i: int| 0 <= i < later.len() implies well_formed(#[trigger] later[i]) by {
            assert(later[i] == items[i + 1]);
        }
        lemma_each_reads_back(later, tail, pad);
        lemma_read_back(items[0], tail1, pad);
        assert(all_blank(pad(element)));
        lemma_space_and_blanks(pad(element));
        lemma_first_element(seq![' '] + pad(element), element, items[0], tail1);
        assert(seq![items[0]] + later =~= items);
        assert(s =~= (seq![' '] + pad(element)) + element);
        assert(s[0] == ' ');
    }
}

/// Blanks between the tokens of a datum do not matter: the canonical text
/// of a well-formed datum, with any blanks put in at any of the gaps between
/// its tokens and with `tail` behind it, reads as that datum and leaves
/// `tail`.
pub proof fn blanks_between_tokens(d: Datum, tail: Seq<char>, pad: Pad)
    requires
        well_formed(d),
        closes(d, tail),
        pads_blanks(pad),
    ensures
        lisp_data(spaced(d, tail, pad)) == Outcome::Complete(d, tail),
{
    lemma_read_back(d, tail, pad);
}

/// With no blanks put in, the spaced text is the canonical text.
pub proof fn lemma_no_pad_is_print(d: Datum, tail: Seq<char>)
    ensures
        spaced(d, tail, no_pad()) == print(d) + tail,
    decreases d, 0int,
{
    let pad = no_pad();
    let close = seq![')'] + tail;
    assert(padded(pad, close) =~= close);
    match d {
        Datum::Nil => {
            assert(seq!['('] + close =~= print(d) + tail);
        },
        Datum::Vector(items) => {
            if items.len() == 0 {
                assert(seq!['#', '('] + close =~= print(d) + tail);
            } else {
                let later = items.skip(1);
                let tail1 = spaced_each(later, close, pad);
                lemma_no_pad_is_print_each(later, close);
                lemma_no_pad_is_print(items[0], tail1);
                let element = spaced(items[0], tail1, pad);
                assert(padded(pad, element) =~= element);
                assert(seq!['#', '('] + (print(items[0]) + (print_each(later) + close)) =~= print(d)
                    + tail);
            }
        },
        Datum::Cons(first, rest) => {
            let tail1 = spaced_cdr(*rest, close, pad);
            lemma_no_pad_is_print_cdr(*rest, close);
            lemma_no_pad_is_print(*first, tail1);
            let element = spaced(*first, tail1, pad);
            assert(padded(pad, element) =~= element);
            assert(seq!['('] + (print(*first) + (print_cdr(*rest) + close)) =~= print(d) + tail);
        },
        _ => {},
    }
}

proof fn lemma_no_pad_is_print_cdr(d: Datum, after: Seq<char>)
    ensures
        spaced_cdr(d, after, no_pad()) == print_cdr(d) + after,
    decreases d, 1int,
{
    let pad = no_pad();
    match d {
        Datum::Nil => {
            assert(print_cdr(d) + after =~= after);
        },
        Datum::Cons(first, rest) => {
            let tail1 = spaced_cdr(*rest, after, pad);
            lemma_no_pad_is_print_cdr(*rest, after);
            lemma_no_pad_is_print(*first, tail1);
            let element = spaced(*first, tail1, pad);
            assert(padded(pad, element) =~= element);
            assert(seq![' '] + (print(*first) + (print_cdr(*rest) + after)) =~= print_cdr(d)
                + after);
        },
        _ => {
            lemma_no_pad_is_print(d, after);
            let written = spaced(d, after, pad);
            assert(padded(pad, written) =~= written);
            let dotted = seq!['.', ' '] + written;
            assert(padded(pad, dotted) =~= dotted);
            assert(seq![' '] + (seq!['.', ' '] + (print(d) + after)) =~= print_cdr(d) + after);
        },
    }
}

proof fn lemma_no_pad_is_print_each(items: Seq<Datum>, after: Seq<char>)
    ensures
        spaced_each(items, after, no_pad()) == print_each(items) + after,
    decreases items, 0int,
{
    let pad = no_pad();
    if items.len() == 0 {
        assert(print_each(items) + after =~= after);
    } else {
        let later = items.skip(1);
        let tail1 = spaced_each(later, after, pad);
        lemma_no_pad_is_print_each(later, after);
        lemma_no_pad_is_print(items[0], tail1);
        let element = spaced(items[0], tail1, pad);
        assert(padded(pad, element) =~= element);
        assert(seq![' '] + (print(items[0]) + (print_each(later) + after)) =~= print_each(items)
            + after);
    }
}

/// Printing and reading are inverse: the canonical text of a well-formed
/// datum, with `tail` behind it, reads back as that datum and leaves `tail`.
/// A number or a symbol ends only where something follows that cannot belong
/// to it; every other datum reads back even with nothing behind it.
pub proof fn round_trip(d: Datum, tail: Seq<char>)
    requires
        well_formed(d),
        closes(d, tail),
    ensures
        lisp_data(print(d) + tail) == Outcome::Complete(d, tail),
{
    assert(pads_blanks(no_pad()));
    blanks_between_tokens(d, tail, no_pad());
    lemma_no_pad_is_print(d, tail);
}

/// The canonical text of a well-formed datum that is neither a number nor a
/// symbol reads back as that datum, with nothing left over.
pub proof fn round_trip_alone(d: Datum)
    requires
        well_formed(d),
        !(d is Num),
        !(d is Symbol),
    ensures
        lisp_data(print(d)) == Outcome::Complete(d, Seq::<char>::empty()),
{
    round_trip(d, Seq::empty());
    assert(print(d) + Seq::<char>::empty() =~= print(d));
}

} // verus!
