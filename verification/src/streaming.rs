//! Text that arrives later never changes what has been decided.
//!
//! A rule that is `Complete` or a `SyntaxError` on a text gives the same
//! answer on every longer text that begins with it; only `Incomplete` is
//! open. So it makes no difference where the source cuts its chunks.

use vstd::prelude::*;
use crate::driver::{concat, first_event, step};
use crate::grammar::{
    any_comment, block_comment, comment, cons, datum_comment, dotted_tail, escaped_char, form,
    line_comment, lisp_data, many0_data, num, parse_num, quote, sharp, string,
    string_rest, symbol, vector_rest,
};
use crate::outcome::Outcome;
use crate::progress::{
    lemma_any_comment_advances, lemma_find, lemma_lisp_data_advances, lemma_many0_data_stops,
};
use crate::token::{
    any, find, line_end, lemma_run, many0, many1, one, run, tag, until, Class, Radix,
};

verus! {

/// `after`, the outcome on a text with `more` behind it, keeps what `before`,
/// the outcome on the text alone, has decided.
pub open spec fn persists<T>(before: Outcome<T>, after: Outcome<T>, more: Seq<char>) -> bool {
    match before {
        Outcome::Complete(value, rest) => after == Outcome::Complete(value, rest + more),
        Outcome::Incomplete => true,
        Outcome::SyntaxError(reason) => after == Outcome::<T>::SyntaxError(reason),
    }
}

proof fn lemma_skip_add(s: Seq<char>, more: Seq<char>, n: int)
    requires
        0 <= n <= s.len(),
    ensures
        (s + more).skip(n) == s.skip(n) + more,
        (s + more).take(n) == s.take(n),
{
    assert((s + more).skip(n) =~= s.skip(n) + more);
    assert((s + more).take(n) =~= s.take(n));
}

proof fn lemma_run_persists(s: Seq<char>, more: Seq<char>, class: Class)
    requires
        run(s, class) < s.len(),
    ensures
        run(s + more, class) == run(s, class),
    decreases s.len(),
{
    assert((s + more)[0] == s[0]);
    if class.has(s[0]) {
        lemma_skip_add(s, more, 1);
        lemma_run_persists(s.skip(1), more, class);
    }
}

proof fn lemma_many0_persists(s: Seq<char>, more: Seq<char>, class: Class)
    ensures
        persists(many0(s, class), many0(s + more, class), more),
{
    lemma_run(s, class);
    if run(s, class) < s.len() {
        lemma_run_persists(s, more, class);
        lemma_skip_add(s, more, run(s, class) as int);
    }
}

proof fn lemma_many1_persists(s: Seq<char>, more: Seq<char>, class: Class)
    ensures
        persists(many1(s, class), many1(s + more, class), more),
{
    lemma_run(s, class);
    if run(s, class) < s.len() {
        lemma_run_persists(s, more, class);
        lemma_skip_add(s, more, run(s, class) as int);
    }
}

proof fn lemma_one_persists(s: Seq<char>, more: Seq<char>, c: char)
    ensures
        persists(one(s, c), one(s + more, c), more),
        persists(any(s), any(s + more), more),
{
    if s.len() > 0 {
        assert((s + more)[0] == s[0]);
        lemma_skip_add(s, more, 1);
    }
}

proof fn lemma_tag_persists(s: Seq<char>, more: Seq<char>, t: Seq<char>)
    ensures
        persists(tag(s, t), tag(s + more, t), more),
{
    let longer = s + more;
    if t.is_prefix_of(s) {
        assert(longer.subrange(0, t.len() as int) =~= s.subrange(0, t.len() as int));
        lemma_skip_add(s, more, t.len() as int);
    } else if !s.is_prefix_of(t) {
        if t.is_prefix_of(longer) {
            if t.len() <= s.len() {
                assert(longer.subrange(0, t.len() as int) =~= s.subrange(0, t.len() as int));
            } else {
                assert(t.subrange(0, s.len() as int) =~= s);
            }
        }
        if longer.is_prefix_of(t) {
            assert(t.subrange(0, s.len() as int) =~= s);
        }
    }
}

proof fn lemma_find_persists(s: Seq<char>, more: Seq<char>, t: Seq<char>)
    requires
        find(s, t) >= 0,
    ensures
        find(s + more, t) == find(s, t),
    decreases s.len(),
{
    let longer = s + more;
    if t.is_prefix_of(s) {
        assert(longer.subrange(0, t.len() as int) =~= s.subrange(0, t.len() as int));
    } else {
        if t.is_prefix_of(longer) {
            assert(longer.subrange(0, t.len() as int) =~= s.subrange(0, t.len() as int));
        }
        lemma_skip_add(s, more, 1);
        lemma_find_persists(s.skip(1), more, t);
    }
}

proof fn lemma_until_persists(s: Seq<char>, more: Seq<char>, t: Seq<char>)
    ensures
        persists(until(s, t), until(s + more, t), more),
{
    if find(s, t) >= 0 {
        lemma_find(s, t);
        lemma_find_persists(s, more, t);
        lemma_skip_add(s, more, find(s, t));
    }
}

proof fn lemma_line_end_persists(s: Seq<char>, more: Seq<char>)
    ensures
        persists(line_end(s), line_end(s + more), more),
{
    lemma_tag_persists(s, more, seq!['\n']);
    lemma_tag_persists(s, more, seq!['\r', '\n']);
}

proof fn lemma_symbol_persists(s: Seq<char>, more: Seq<char>)
    ensures
        persists(symbol(s), symbol(s + more), more),
{
    reveal(symbol);
    lemma_many1_persists(s, more, Class::Token);
}

proof fn lemma_parse_num_persists(s: Seq<char>, more: Seq<char>, radix: Radix)
    ensures
        persists(parse_num(s, radix), parse_num(s + more, radix), more),
        persists(num(s), num(s + more), more),
{
    reveal(parse_num);
    if s.len() > 0 {
        assert((s + more)[0] == s[0]);
        if s[0] == '-' {
            lemma_skip_add(s, more, 1);
            lemma_many1_persists(s.skip(1), more, Class::Digit(radix));
            lemma_many1_persists(s.skip(1), more, Class::Digit(Radix::Decimal));
        } else {
            lemma_many1_persists(s, more, Class::Digit(radix));
            lemma_many1_persists(s, more, Class::Digit(Radix::Decimal));
        }
    }
}

proof fn lemma_escaped_char_persists(s: Seq<char>, more: Seq<char>)
    ensures
        persists(escaped_char(s), escaped_char(s + more), more),
{
    if s.len() > 0 {
        assert((s + more)[0] == s[0]);
        if s.len() >= 2 {
            assert((s + more)[1] == s[1]);
            lemma_skip_add(s, more, 2);
        }
    }
}

proof fn lemma_string_rest_persists(s: Seq<char>, more: Seq<char>)
    ensures
        persists(string_rest(s), string_rest(s + more), more),
    decreases s.len(),
{
    if s.len() > 0 {
        assert((s + more)[0] == s[0]);
        lemma_skip_add(s, more, 1);
        if s[0] == '"' {
        } else if s[0] == '\\' {
            lemma_escaped_char_persists(s, more);
            if let Outcome::Complete(c, rest) = escaped_char(s) {
                lemma_string_rest_persists(rest, more);
            }
        } else {
            lemma_string_rest_persists(s.skip(1), more);
        }
    }
}

proof fn lemma_string_persists(s: Seq<char>, more: Seq<char>)
    ensures
        persists(string(s), string(s + more), more),
{
    reveal(string);
    lemma_one_persists(s, more, '"');
    if s.len() > 0 {
        lemma_string_rest_persists(s.skip(1), more);
    }
}

proof fn lemma_block_comment_persists(s: Seq<char>, more: Seq<char>)
    ensures
        persists(block_comment(s), block_comment(s + more), more),
{
    reveal(block_comment);
    lemma_tag_persists(s, more, seq!['#', '|']);
    if let Outcome::Complete(_, inside) = tag(s, seq!['#', '|']) {
        lemma_until_persists(inside, more, seq!['|', '#']);
        if let Outcome::Complete(_, close) = until(inside, seq!['|', '#']) {
            lemma_tag_persists(close, more, seq!['|', '#']);
        }
    }
}

proof fn lemma_line_comment_persists(s: Seq<char>, more: Seq<char>)
    ensures
        persists(line_comment(s), line_comment(s + more), more),
{
    reveal(line_comment);
    lemma_one_persists(s, more, ';');
    if let Outcome::Complete(_, inside) = one(s, ';') {
        lemma_until_persists(inside, more, seq!['\n']);
        if let Outcome::Complete(_, close) = until(inside, seq!['\n']) {
            lemma_line_end_persists(close, more);
        }
    }
}

/// More text behind a text changes no datum read from it and no error found
/// in it.
pub proof fn lemma_lisp_data_persists(s: Seq<char>, more: Seq<char>)
    ensures
        persists(lisp_data(s), lisp_data(s + more), more),
    decreases s.len(), 5int,
{
    lemma_run(s, Class::Blank);
    let blanks = run(s, Class::Blank) as int;
    if blanks < s.len() {
        lemma_run_persists(s, more, Class::Blank);
        lemma_skip_add(s, more, blanks);
        lemma_form_persists(s.skip(blanks), more);
    }
}

proof fn lemma_form_persists(s: Seq<char>, more: Seq<char>)
    ensures
        persists(form(s), form(s + more), more),
    decreases s.len(), 4int,
{
    if s.len() > 0 {
        assert((s + more)[0] == s[0]);
        if s.len() >= 2 {
            assert((s + more)[1] == s[1]);
        }
        lemma_quote_persists(s, more);
        lemma_cons_persists(s, more);
        lemma_comment_persists(s, more);
        lemma_sharp_persists(s, more);
        lemma_string_persists(s, more);
        lemma_parse_num_persists(s, more, Radix::Decimal);
        lemma_symbol_persists(s, more);
    }
}

proof fn lemma_quote_persists(s: Seq<char>, more: Seq<char>)
    ensures
        persists(quote(s), quote(s + more), more),
    decreases s.len(), 3int,
{
    if s.len() > 0 {
        assert((s + more)[0] == s[0]);
        if s[0] == '\'' {
            lemma_skip_add(s, more, 1);
            lemma_lisp_data_persists(s.skip(1), more);
        }
    }
}

proof fn lemma_many0_data_persists(s: Seq<char>, more: Seq<char>)
    ensures
        persists(many0_data(s), many0_data(s + more), more),
    decreases s.len(), 6int,
{
    lemma_run(s, Class::Blank);
    let blanks = run(s, Class::Blank) as int;
    if blanks < s.len() {
        lemma_run_persists(s, more, Class::Blank);
        lemma_skip_add(s, more, blanks);
        let here = s.skip(blanks);
        lemma_lisp_data_persists(here, more);
        lemma_lisp_data_advances(here);
        if let Outcome::Complete(first, after) = lisp_data(here) {
            lemma_many0_data_persists(after, more);
        }
    }
}

proof fn lemma_dotted_tail_persists(s: Seq<char>, more: Seq<char>)
    ensures
        persists(dotted_tail(s), dotted_tail(s + more), more),
    decreases s.len(), 6int,
{
    lemma_lisp_data_persists(s, more);
    if let Outcome::Complete(_, after) = lisp_data(s) {
        lemma_many0_persists(after, more, Class::Blank);
        if let Outcome::Complete(_, close) = many0(after, Class::Blank) {
            lemma_one_persists(close, more, ')');
        }
    }
}

proof fn lemma_cons_persists(s: Seq<char>, more: Seq<char>)
    ensures
        persists(cons(s), cons(s + more), more),
    decreases s.len(), 3int,
{
    if s.len() > 0 {
        assert((s + more)[0] == s[0]);
        if s[0] == '(' {
            lemma_skip_add(s, more, 1);
            lemma_many0_data_persists(s.skip(1), more);
            lemma_many0_data_stops(s.skip(1));
            if let Outcome::Complete(_, stop) = many0_data(s.skip(1)) {
                assert((stop + more)[0] == stop[0]);
                lemma_skip_add(stop, more, 1);
                if stop[0] == '.' {
                    lemma_dotted_tail_persists(stop.skip(1), more);
                }
            }
        }
    }
}

proof fn lemma_vector_rest_persists(s: Seq<char>, more: Seq<char>)
    ensures
        persists(vector_rest(s), vector_rest(s + more), more),
    decreases s.len(), 7int,
{
    lemma_many0_data_persists(s, more);
    lemma_many0_data_stops(s);
    if let Outcome::Complete(_, stop) = many0_data(s) {
        assert((stop + more)[0] == stop[0]);
        lemma_skip_add(stop, more, 1);
    }
}

proof fn lemma_sharp_persists(s: Seq<char>, more: Seq<char>)
    ensures
        persists(sharp(s), sharp(s + more), more),
    decreases s.len(), 3int,
{
    if s.len() > 0 {
        assert((s + more)[0] == s[0]);
        if s.len() >= 2 && s[0] == '#' {
            assert((s + more)[1] == s[1]);
            lemma_skip_add(s, more, 2);
            let rest = s.skip(2);
            lemma_parse_num_persists(rest, more, Radix::Binary);
            lemma_parse_num_persists(rest, more, Radix::Octal);
            lemma_parse_num_persists(rest, more, Radix::Decimal);
            lemma_parse_num_persists(rest, more, Radix::Hex);
            if s[1] == '(' {
                lemma_vector_rest_persists(rest, more);
            }
        }
    }
}

proof fn lemma_datum_comment_persists(s: Seq<char>, more: Seq<char>)
    ensures
        persists(datum_comment(s), datum_comment(s + more), more),
    decreases s.len(), 1int,
{
    lemma_tag_persists(s, more, seq!['#', ';']);
    if let Outcome::Complete(_, inside) = tag(s, seq!['#', ';']) {
        lemma_lisp_data_persists(inside, more);
    }
}

proof fn lemma_any_comment_persists(s: Seq<char>, more: Seq<char>)
    ensures
        persists(any_comment(s), any_comment(s + more), more),
    decreases s.len(), 2int,
{
    lemma_block_comment_persists(s, more);
    lemma_line_comment_persists(s, more);
    lemma_datum_comment_persists(s, more);
}

proof fn lemma_comment_persists(s: Seq<char>, more: Seq<char>)
    ensures
        persists(comment(s), comment(s + more), more),
    decreases s.len(), 3int,
{
    lemma_any_comment_persists(s, more);
    lemma_any_comment_advances(s);
    if let Outcome::Complete(_, rest) = any_comment(s) {
        lemma_lisp_data_persists(rest, more);
    }
}

/// Where the source cuts its chunks makes no difference: a driver that is
/// fed the chunks one at a time reports first what it would report had it
/// been fed all of them at once, the same datum or the same error, and asks
/// for more only if it would then too.
pub proof fn chunking_is_invisible(buffer: Seq<char>, chunks: Seq<Seq<char>>)
    ensures
        first_event(buffer, chunks).1 == step(buffer + concat(chunks)).1,
    decreases chunks.len(),
{
    if chunks.len() == 0 {
        assert(buffer + concat(chunks) =~= buffer);
    } else {
        assert(buffer + concat(chunks) =~= (buffer + chunks[0]) + concat(chunks.skip(1)));
        if step(buffer).1 is NeedInput {
            chunking_is_invisible(buffer + chunks[0], chunks.skip(1));
        } else {
            lemma_lisp_data_persists(buffer, concat(chunks));
        }
    }
}

/// A datum that is complete in the buffer is read the same whatever is fed
/// behind it, and what is fed stays in the buffer behind the rest.
pub proof fn complete_datum_is_final(buffer: Seq<char>, chunk: Seq<char>)
    requires
        step(buffer).1 is Emit,
    ensures
        step(buffer + chunk).1 == step(buffer).1,
        step(buffer + chunk).0 == step(buffer).0 + chunk,
{
    lemma_lisp_data_persists(buffer, chunk);
}

/// After an error the driver starts afresh: its buffer is empty, so the next
/// chunk is read as if nothing had come before it.
pub proof fn error_resynchronizes(buffer: Seq<char>, chunk: Seq<char>)
    requires
        step(buffer).1 is Report,
    ensures
        step(buffer).0 == Seq::<char>::empty(),
        step(step(buffer).0 + chunk) == step(chunk),
{
    assert(Seq::<char>::empty() + chunk =~= chunk);
}

} // verus!
