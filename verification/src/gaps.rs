//! Blanks between the tokens of any text that holds a datum do not matter.
//!
//! The gaps of a text are the places where the reader passes from one token
//! to the next: in front of a datum, behind a quote mark, in front of every
//! element of a list or a vector and of the parenthesis that closes it, on
//! either side of the lone `.` and of the datum behind it, and in front of
//! the datum that follows a comment. Further blanks at a gap change neither
//! the datum that is read nor the text left over.

use vstd::prelude::*;
use crate::blanks::{all_blank, lemma_blank_run, lemma_no_blank_in_front};
use crate::data::Datum;
use crate::grammar::{
    any_comment, block_comment, comment, cons, datum_comment, dotted_tail, form, line_comment,
    lisp_data, many0_data, vector_rest,
};
use crate::local::{
    ends_alike, front, lemma_any_comment_local, lemma_front_and_rest, lemma_lone_dot,
    lemma_many0_data_local, lemma_tag_mismatch, reading_is_local,
};
use crate::outcome::{Outcome, Reason};
use crate::progress::{
    lemma_any_comment_advances, lemma_dotted_tail_advances, lemma_lisp_data_advances,
    lemma_many0_data_stops,
};
use crate::token::{is_blank, lemma_run, lemma_run_exact, run, Class};

verus! {

/// The text `s` with `b` put in before its character number `at`.
pub open spec fn insert(s: Seq<char>, at: int, b: Seq<char>) -> Seq<char> {
    s.take(at) + b + s.skip(at)
}

/// Whether the place `at` is a gap of the text `s` read as a datum: a place
/// among the blanks in front of the datum, or a gap inside it.
pub open spec fn gap_datum(s: Seq<char>, at: int) -> bool
    decreases s.len(), 5int,
{
    let blanks = run(s, Class::Blank) as int;
    if at < 0 || blanks >= s.len() {
        false
    } else if at <= blanks {
        true
    } else {
        gap_form(s.skip(blanks), at - blanks)
    }
}

/// Whether the place `at` is a gap inside the datum that begins with the
/// first character of `s`. A number, a symbol, a string literal and `#t` are
/// one token each and have no gap inside.
pub open spec fn gap_form(s: Seq<char>, at: int) -> bool
    decreases s.len(), 4int,
{
    if s.len() == 0 || at <= 0 {
        false
    } else if s[0] == '\'' {
        gap_datum(s.skip(1), at - 1)
    } else if s[0] == '(' {
        gap_list(s.skip(1), at - 1)
    } else if s[0] == ';' {
        gap_comment(s, at)
    } else if s[0] == '#' {
        if s.len() < 2 {
            false
        } else if s[1] == '|' || s[1] == ';' {
            gap_comment(s, at)
        } else if s[1] == '(' {
            at >= 2 && gap_items(s.skip(2), at - 2)
        } else {
            false
        }
    } else {
        false
    }
}

/// Whether the place `at` is a gap among the elements that `s` begins with:
/// a place among the blanks in front of an element or of what ends the
/// elements, or a gap inside an element.
pub open spec fn gap_items(s: Seq<char>, at: int) -> bool
    decreases s.len(), 6int,
{
    let blanks = run(s, Class::Blank) as int;
    if at < 0 || blanks >= s.len() {
        false
    } else if at <= blanks {
        true
    } else {
        let here = s.skip(blanks);
        match lisp_data(here) {
            Outcome::Complete(_, after) => if after.len() < here.len() {
                let used = here.len() - after.len();
                if at - blanks < used {
                    gap_form(here, at - blanks)
                } else {
                    gap_items(after, at - blanks - used)
                }
            } else {
                false
            },
            _ => false,
        }
    }
}

/// Whether the place `at` is a gap of what follows the opening parenthesis of
/// a list: a gap among its elements, or behind its lone `.`.
pub open spec fn gap_list(s: Seq<char>, at: int) -> bool
    decreases s.len(), 7int,
{
    match many0_data(s) {
        Outcome::Complete(_, stop) => if 0 < stop.len() <= s.len() {
            let stopped = s.len() - stop.len();
            if at <= stopped {
                gap_items(s, at)
            } else if stop[0] == '.' {
                gap_tail(stop.skip(1), at - stopped - 1)
            } else {
                false
            }
        } else {
            false
        },
        _ => false,
    }
}

/// Whether the place `at` is a gap of what follows the lone `.` of a list: a
/// gap of the last datum, or a place among the blanks between it and `)`.
pub open spec fn gap_tail(s: Seq<char>, at: int) -> bool
    decreases s.len(), 6int,
{
    match lisp_data(s) {
        Outcome::Complete(_, after) => {
            let used = s.len() - after.len();
            if at < used {
                gap_datum(s, at)
            } else {
                at - used <= run(after, Class::Blank)
            }
        },
        _ => false,
    }
}

/// Whether the place `at` is a gap of a comment and the datum behind it: a
/// gap of that datum or, in a datum comment, of the datum that is dropped. A
/// block comment and a line comment have no gap inside.
pub open spec fn gap_comment(s: Seq<char>, at: int) -> bool
    decreases s.len(), 3int,
{
    match any_comment(s) {
        Outcome::Complete(_, rest) => if rest.len() < s.len() {
            let used = s.len() - rest.len();
            if at >= used {
                gap_datum(rest, at - used)
            } else if seq!['#', ';'].is_prefix_of(s) {
                at >= 2 && gap_datum(s.skip(2), at - 2)
            } else {
                false
            }
        } else {
            false
        },
        _ => false,
    }
}

/// Putting in behind the first `n` characters leaves them as they are.
proof fn lemma_insert_later(s: Seq<char>, at: int, b: Seq<char>, n: int)
    requires
        0 <= n <= at <= s.len(),
    ensures
        insert(s, at, b) == s.take(n) + insert(s.skip(n), at - n, b),
        insert(s, at, b).take(n) == s.take(n),
        insert(s, at, b).skip(n) == insert(s.skip(n), at - n, b),
        n < at ==> insert(s, at, b)[n] == s[n],
{
    let later = insert(s.skip(n), at - n, b);
    assert(insert(s, at, b) =~= s.take(n) + later);
    assert(insert(s, at, b).take(n) =~= s.take(n));
    assert(insert(s, at, b).skip(n) =~= later);
}

/// What is put in at its very front stands in front of a text, and the text
/// begins as before where nothing is put in.
proof fn lemma_insert_ends_alike(s: Seq<char>, at: int, b: Seq<char>)
    requires
        0 <= at <= s.len(),
        s.len() > 0,
        all_blank(b),
    ensures
        ends_alike(s, insert(s, at, b)),
        insert(s, at, b).len() == s.len() + b.len(),
{
    let put = insert(s, at, b);
    if at > 0 {
        assert(put[0] == s[0]);
    } else if b.len() > 0 {
        assert(put[0] == b[0]);
    } else {
        assert(put =~= s);
    }
}

/// Blanks put in among the blanks at the front lengthen their run, and leave
/// what follows the run as it is.
proof fn lemma_insert_in_blanks(s: Seq<char>, at: int, b: Seq<char>)
    requires
        all_blank(b),
        0 <= at <= run(s, Class::Blank),
    ensures
        run(insert(s, at, b), Class::Blank) == run(s, Class::Blank) + b.len(),
        insert(s, at, b).skip((run(s, Class::Blank) + b.len()) as int) == s.skip(
            run(s, Class::Blank) as int,
        ),
{
    lemma_run(s, Class::Blank);
    let blanks = run(s, Class::Blank) as int;
    let head = s.take(at) + b;
    let rest = s.skip(at);
    assert forall|i: int| 0 <= i < head.len() implies is_blank(#[trigger] head[i]) by {
        if i < at {
            assert(head[i] == s[i]);
        } else {
            assert(head[i] == b[i - at]);
        }
    }
    lemma_blank_run(head, rest);
    lemma_blank_run(s.take(at), rest);
    assert(s.take(at) + rest =~= s);
    assert(insert(s, at, b) =~= head + rest);
    assert(insert(s, at, b).skip(blanks + b.len()) =~= s.skip(blanks));
}

/// Further blanks at a gap of a text change nothing in what is read from
/// it: neither the datum nor the text left over.
pub proof fn blanks_in_gaps(s: Seq<char>, at: int, b: Seq<char>)
    requires
        all_blank(b),
        gap_datum(s, at),
        lisp_data(s) is Complete,
    ensures
        lisp_data(insert(s, at, b)) == lisp_data(s),
        0 <= at <= s.len(),
    decreases s.len(), 5int,
{
    lemma_run(s, Class::Blank);
    let blanks = run(s, Class::Blank) as int;
    if at <= blanks {
        lemma_insert_in_blanks(s, at, b);
    } else {
        let here = s.skip(blanks);
        lemma_form_gaps(here, at - blanks, b);
        lemma_insert_later(s, at, b, blanks);
        let put = insert(s, at, b);
        let inner = insert(here, at - blanks, b);
        lemma_insert_later(here, at - blanks, b, 0);
        assert(inner[0] == here[0]);
        assert forall|i: int| 0 <= i < blanks implies Class::Blank.has(#[trigger] put[i]) by {
            assert(put[i] == s.take(blanks)[i]);
        }
        assert(put[blanks] == inner[0]);
        lemma_run_exact(put, Class::Blank, blanks);
    }
}

proof fn lemma_form_gaps(s: Seq<char>, at: int, b: Seq<char>)
    requires
        all_blank(b),
        gap_form(s, at),
        form(s) is Complete,
    ensures
        form(insert(s, at, b)) == form(s),
        0 < at <= s.len(),
    decreases s.len(), 4int,
{
    let put = insert(s, at, b);
    if s[0] == '\'' {
        blanks_in_gaps(s.skip(1), at - 1, b);
        lemma_insert_later(s, at, b, 1);
        assert(put[0] == s[0]);
    } else if s[0] == '(' {
        lemma_cons_gaps(s, at, b);
        lemma_insert_later(s, at, b, 0);
    } else if s[0] == ';' {
        lemma_comment_gaps(s, at, b);
        lemma_insert_later(s, at, b, 0);
    } else if s[1] == '|' || s[1] == ';' {
        lemma_comment_gaps(s, at, b);
        lemma_insert_later(s, at, b, 1);
        assert(put[0] == s[0]);
        assert(put[1] == s[1]);
    } else {
        lemma_vector_gaps(s.skip(2), at - 2, b);
        lemma_insert_later(s, at, b, 1);
        lemma_insert_later(s, at, b, 2);
        assert(put[0] == s[0]);
        assert(put[1] == s[1]);
    }
}

#[verifier::rlimit(40)]
proof fn lemma_items_gaps(s: Seq<char>, at: int, b: Seq<char>)
    requires
        all_blank(b),
        gap_items(s, at),
        many0_data(s) is Complete,
    ensures
        many0_data(insert(s, at, b)) == many0_data(s),
        0 <= at <= s.len(),
    decreases s.len(), 6int,
{
    lemma_run(s, Class::Blank);
    let blanks = run(s, Class::Blank) as int;
    let put = insert(s, at, b);
    if at <= blanks {
        lemma_insert_in_blanks(s, at, b);
    } else {
        let here = s.skip(blanks);
        lemma_lisp_data_advances(here);
        if let Outcome::Complete(first, after) = lisp_data(here) {
            let used = here.len() - after.len();
            let into = at - blanks;
            if into < used {
                lemma_no_blank_in_front(here);
                lemma_form_gaps(here, into, b);
                let element = insert(here, into, b);
                lemma_insert_later(here, into, b, 0);
                assert(element[0] == here[0]);
                lemma_no_blank_in_front(element);
                lemma_insert_later(s, at, b, blanks);
                assert forall|i: int| 0 <= i < blanks implies Class::Blank.has(
                    #[trigger] put[i],
                ) by {
                    assert(put[i] == s.take(blanks)[i]);
                }
                assert(put[blanks] == element[0]);
                lemma_run_exact(put, Class::Blank, blanks);
            } else {
                lemma_many0_data_stops(after);
                lemma_items_gaps(after, into - used, b);
                let next = insert(after, into - used, b);
                lemma_insert_ends_alike(after, into - used, b);
                reading_is_local(here, next);
                let element = front(here, after) + next;
                assert(put == s.take(blanks) + element) by {
                    lemma_front_and_rest(here, after);
                    lemma_insert_later(s, at, b, blanks + used);
                    assert(s.skip(blanks + used) =~= after);
                    assert(s.take(blanks + used) =~= s.take(blanks) + front(here, after));
                    assert(put =~= s.take(blanks) + element);
                }
                assert(element[0] == here[0]);
                assert forall|i: int| 0 <= i < blanks implies Class::Blank.has(
                    #[trigger] put[i],
                ) by {
                    assert(put[i] == s.take(blanks)[i]);
                }
                assert(put[blanks] == element[0]);
                lemma_run_exact(put, Class::Blank, blanks);
                assert(put.skip(blanks) =~= element);
            }
        }
    }
}

proof fn lemma_vector_gaps(s: Seq<char>, at: int, b: Seq<char>)
    requires
        all_blank(b),
        gap_items(s, at),
        vector_rest(s) is Complete,
    ensures
        vector_rest(insert(s, at, b)) == vector_rest(s),
        0 <= at <= s.len(),
    decreases s.len(), 7int,
{
    lemma_items_gaps(s, at, b);
}

proof fn lemma_tail_gaps(s: Seq<char>, at: int, b: Seq<char>)
    requires
        all_blank(b),
        gap_tail(s, at),
        dotted_tail(s) is Complete,
    ensures
        dotted_tail(insert(s, at, b)) == dotted_tail(s),
        0 <= at <= s.len(),
    decreases s.len(), 6int,
{
    lemma_lisp_data_advances(s);
    if let Outcome::Complete(last, after) = lisp_data(s) {
        let used = s.len() - after.len();
        if at < used {
            blanks_in_gaps(s, at, b);
        } else {
            lemma_run(after, Class::Blank);
            let next = insert(after, at - used, b);
            lemma_insert_ends_alike(after, at - used, b);
            lemma_insert_in_blanks(after, at - used, b);
            reading_is_local(s, next);
            assert(insert(s, at, b) == front(s, after) + next) by {
                lemma_insert_later(s, at, b, used);
                assert(s.skip(used) =~= after);
            }
        }
    }
}

/// Two lists whose elements read the same, up to the same place, are the
/// same list.
proof fn lemma_cons_same_items(s: Seq<char>, put: Seq<char>)
    requires
        s.len() > 0,
        s[0] == '(',
        put.len() >= s.len(),
        put[0] == '(',
        many0_data(put.skip(1)) == many0_data(s.skip(1)),
        cons(s) is Complete,
    ensures
        cons(put) == cons(s),
{
    lemma_many0_data_stops(s.skip(1));
}

/// Two lists whose elements read the same up to a lone `.`, and whose last
/// datum reads the same, are the same list.
proof fn lemma_cons_same_tail(
    s: Seq<char>,
    put: Seq<char>,
    items: Seq<Datum>,
    why: Reason,
    stop: Seq<char>,
    shut: Seq<char>,
)
    requires
        s.len() > 0,
        s[0] == '(',
        put.len() > 0,
        put[0] == '(',
        many0_data(s.skip(1)) == Outcome::Complete((items, why), stop),
        0 < stop.len() < s.len(),
        stop[0] == '.',
        many0_data(put.skip(1)) == Outcome::Complete((items, why), shut),
        0 < shut.len() < put.len(),
        shut[0] == '.',
        dotted_tail(shut.skip(1)) == dotted_tail(stop.skip(1)),
    ensures
        cons(put) == cons(s),
{
}

#[verifier::rlimit(40)]
proof fn lemma_cons_gaps(s: Seq<char>, at: int, b: Seq<char>)
    requires
        all_blank(b),
        s.len() > 0,
        s[0] == '(',
        gap_list(s.skip(1), at - 1),
        cons(s) is Complete,
    ensures
        cons(insert(s, at, b)) == cons(s),
        0 < at <= s.len(),
    decreases s.len(), 3int,
{
    let inner = s.skip(1);
    let put = insert(s, at, b);
    lemma_many0_data_stops(inner);
    if let Outcome::Complete((items, why), stop) = many0_data(inner) {
        let stopped = inner.len() - stop.len();
        if at - 1 <= stopped {
            lemma_items_gaps(inner, at - 1, b);
            lemma_insert_later(s, at, b, 1);
            assert(put[0] == s[0]);
            assert(many0_data(put.skip(1)) == many0_data(inner));
            lemma_cons_same_items(s, put);
        } else {
            let tail = stop.skip(1);
            let into = at - 1 - stopped - 1;
            let next = insert(tail, into, b);
            let shut = seq!['.'] + next;
            assert(dotted_tail(tail) is Complete);
            lemma_tail_gaps(tail, into, b);
            lemma_dotted_tail_advances(tail);
            lemma_insert_ends_alike(tail, into, b);
            assert(shut[0] == '.');
            assert(shut[1] == next[0]);
            assert(shut.skip(1) =~= next);
            assert(lisp_data(shut) == Outcome::<Datum>::SyntaxError(why)) by {
                lemma_lone_dot(stop);
                lemma_lone_dot(shut);
                assert(tail[0] == stop[1]);
            }
            assert(many0_data(front(inner, stop) + shut) == Outcome::Complete(
                (items, why),
                shut,
            )) by {
                lemma_many0_data_local(inner, shut);
            }
            assert(put.skip(1) == front(inner, stop) + shut && put[0] == '(') by {
                lemma_insert_later(s, at, b, 1);
                lemma_insert_later(inner, at - 1, b, stopped + 1);
                assert(inner.skip(stopped + 1) =~= tail);
                assert(inner.take(stopped + 1) =~= front(inner, stop) + seq!['.']);
                assert(put.skip(1) =~= front(inner, stop) + shut);
            }
            assert(many0_data(inner) == Outcome::Complete((items, why), stop));
            assert(dotted_tail(shut.skip(1)) == dotted_tail(tail));
            assert(shut.len() < put.len()) by {
                assert(put.skip(1).len() == front(inner, stop).len() + shut.len());
            }
            lemma_cons_same_tail(s, put, items, why, stop, shut);
        }
    }
}

/// A datum comment with the same two signs in front and the same datum
/// behind them is the same comment.
proof fn lemma_datum_comment_same(s: Seq<char>, put: Seq<char>)
    requires
        s.len() >= 2,
        put.len() >= 2,
        s[0] == '#',
        s[1] == ';',
        put[0] == '#',
        put[1] == ';',
        lisp_data(put.skip(2)) == lisp_data(s.skip(2)),
    ensures
        any_comment(put) == any_comment(s),
        any_comment(s) == datum_comment(s),
{
    reveal(block_comment);
    reveal(line_comment);
    let word = seq!['#', ';'];
    lemma_tag_mismatch(s, seq!['#', '|'], 1);
    lemma_tag_mismatch(put, seq!['#', '|'], 1);
    assert(s.subrange(0, 2) =~= word);
    assert(put.subrange(0, 2) =~= word);
}

/// A comment and what follows it read the same where the comment is the
/// same and what follows reads the same.
proof fn lemma_comment_same(s: Seq<char>, put: Seq<char>, rest: Seq<char>, next: Seq<char>)
    requires
        any_comment(s) == Outcome::Complete((), rest),
        any_comment(put) == Outcome::Complete((), next),
        rest.len() < s.len(),
        next.len() < put.len(),
        lisp_data(next) == lisp_data(rest),
    ensures
        comment(put) == comment(s),
{
}

proof fn lemma_comment_gaps(s: Seq<char>, at: int, b: Seq<char>)
    requires
        all_blank(b),
        gap_comment(s, at),
        comment(s) is Complete,
    ensures
        comment(insert(s, at, b)) == comment(s),
        0 < at <= s.len(),
        s.len() > 0 && s[0] == '#' ==> at >= 2,
    decreases s.len(), 3int,
{
    let put = insert(s, at, b);
    lemma_any_comment_advances(s);
    lemma_comment_begins(s);
    if let Outcome::Complete(_, rest) = any_comment(s) {
        let used = s.len() - rest.len();
        lemma_lisp_data_advances(rest);
        if at >= used {
            let next = insert(rest, at - used, b);
            blanks_in_gaps(rest, at - used, b);
            lemma_insert_ends_alike(rest, at - used, b);
            assert(any_comment(front(s, rest) + next) == Outcome::Complete((), next)) by {
                lemma_any_comment_local(s, next);
            }
            assert(put == front(s, rest) + next) by {
                lemma_insert_later(s, at, b, used);
                assert(s.skip(used) =~= rest);
            }
            assert(any_comment(s) == Outcome::Complete((), rest)) by {
                reveal(block_comment);
                reveal(line_comment);
                assert(datum_comment(s) is Complete ==> datum_comment(s) == Outcome::Complete(
                    (),
                    datum_comment(s)->Complete_1,
                ));
            }
            lemma_comment_same(s, put, rest, next);
        } else {
            let inner = s.skip(2);
            assert(s[0] == '#' && s[1] == ';' && s.len() >= 2) by {
                assert(s.subrange(0, 2)[0] == s[0]);
                assert(s.subrange(0, 2)[1] == s[1]);
            }
            lemma_datum_comment_same(s, s);
            assert(lisp_data(inner) is Complete) by {
                assert(seq!['#', ';'].is_prefix_of(s));
            }
            blanks_in_gaps(inner, at - 2, b);
            lemma_insert_later(s, at, b, 2);
            lemma_insert_later(s, at, b, 1);
            lemma_insert_later(s, at, b, 0);
            assert(put[0] == '#');
            assert(put[1] == ';');
            lemma_datum_comment_same(s, put);
            lemma_comment_same(s, put, rest, rest);
        }
    }
}

/// A comment that begins with `#` uses up two characters at least.
proof fn lemma_comment_begins(s: Seq<char>)
    ensures
        any_comment(s) matches Outcome::Complete(_, rest) ==> s.len() > 0 && (s[0] == '#'
            ==> rest.len() + 2 <= s.len()),
{
    reveal(block_comment);
    reveal(line_comment);
    lemma_any_comment_advances(s);
    if let Outcome::Complete(_, rest) = any_comment(s) {
        if s[0] == '#' {
            if block_comment(s) is Complete {
                crate::progress::lemma_find(s.skip(2), seq!['|', '#']);
            } else {
                lemma_lisp_data_advances(s.skip(2));
            }
        }
    }
}

} // verus!
