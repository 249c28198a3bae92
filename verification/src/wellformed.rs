//! Whatever the reader reads is well formed: every symbol in it has the text
//! of a symbol.

use vstd::prelude::*;
use crate::data::{is_symbol_name, well_formed, Datum};
use crate::grammar::{
    any_comment, chain, comment, cons, dotted_tail, form, lisp_data, many0_data, num, parse_num,
    quote, quote_word, quoted, sharp, string, symbol, vector_rest,
};
use crate::outcome::{Outcome, Reason};
use crate::progress::{lemma_any_comment_advances, lemma_lisp_data_advances, lemma_many0_data_stops};
use crate::token::{lemma_run, run, Class, Radix};

verus! {

/// Every datum of `items` is well formed.
pub open spec fn all_well_formed(items: Seq<Datum>) -> bool {
    forall|i: int| 0 <= i < items.len() ==> well_formed(#[trigger] items[i])
}

/// A chain of well-formed items that ends in a well-formed datum is well
/// formed.
proof fn lemma_chain_well_formed(items: Seq<Datum>, last: Datum)
    requires
        all_well_formed(items),
        well_formed(last),
    ensures
        well_formed(chain(items, last)),
    decreases items.len(),
{
    if items.len() > 0 {
        let later = items.skip(1);
        assert forall|i: int| 0 <= i < later.len() implies well_formed(#[trigger] later[i]) by {
            assert(later[i] == items[i + 1]);
        }
        lemma_chain_well_formed(later, last);
        assert(well_formed(items[0]));
    }
}

/// `quote` is the text of a symbol.
proof fn lemma_quoted_well_formed(d: Datum)
    requires
        well_formed(d),
    ensures
        well_formed(quoted(d)),
{
    let word = quote_word();
    assert(word.len() == 5);
    assert(word[0] == 'q' && word[1] == 'u' && word[2] == 'o' && word[3] == 't' && word[4] == 'e');
    assert(is_symbol_name(word));
    reveal_with_fuel(well_formed, 3);
}

/// What is read as a symbol, where no earlier rule applies, has the text of a
/// symbol.
proof fn lemma_symbol_well_formed(s: Seq<char>)
    requires
        s.len() > 0,
        s[0] != ';',
        num(s) == Outcome::<Datum>::SyntaxError(Reason::NoMatch),
    ensures
        symbol(s) matches Outcome::Complete(d, _) ==> well_formed(d),
{
    reveal(symbol);
    reveal(parse_num);
    lemma_run(s, Class::Token);
    let n = run(s, Class::Token) as int;
    if symbol(s) is Complete {
        let name = s.take(n);
        assert forall|i: int| 0 <= i < name.len() implies crate::token::is_token(
            #[trigger] name[i],
        ) by {
            assert(name[i] == s[i]);
        }
        assert(name[0] == s[0]);
        if s[0] == '-' {
            lemma_run(s.skip(1), Class::Digit(Radix::Decimal));
            if name.len() > 1 {
                assert(name[1] == s[1]);
                assert(s.skip(1)[0] == s[1]);
            }
        } else {
            lemma_run(s, Class::Digit(Radix::Decimal));
        }
    }
}

/// Every datum that is read is well formed.
pub proof fn read_data_is_well_formed(s: Seq<char>)
    ensures
        lisp_data(s) matches Outcome::Complete(d, _) ==> well_formed(d),
    decreases s.len(), 5int,
{
    lemma_run(s, Class::Blank);
    let blanks = run(s, Class::Blank) as int;
    if blanks < s.len() {
        lemma_form_well_formed(s.skip(blanks));
    }
}

proof fn lemma_form_well_formed(s: Seq<char>)
    ensures
        form(s) matches Outcome::Complete(d, _) ==> well_formed(d),
    decreases s.len(), 4int,
{
    reveal(string);
    reveal(parse_num);
    if s.len() > 0 {
        if s[0] == '\'' {
            lemma_quote_well_formed(s);
        } else if s[0] == '(' {
            lemma_cons_well_formed(s);
        } else if s[0] == ';' {
            lemma_comment_well_formed(s);
        } else if s[0] == '#' {
            lemma_comment_well_formed(s);
            lemma_sharp_well_formed(s);
        } else if s[0] == '"' {
        } else if num(s) == Outcome::<Datum>::SyntaxError(Reason::NoMatch) {
            lemma_symbol_well_formed(s);
        }
    }
}

proof fn lemma_quote_well_formed(s: Seq<char>)
    ensures
        quote(s) matches Outcome::Complete(d, _) ==> well_formed(d),
    decreases s.len(), 3int,
{
    if s.len() > 0 && s[0] == '\'' {
        read_data_is_well_formed(s.skip(1));
        if let Outcome::Complete(d, _) = lisp_data(s.skip(1)) {
            lemma_quoted_well_formed(d);
        }
    }
}

proof fn lemma_many0_data_well_formed(s: Seq<char>)
    ensures
        many0_data(s) matches Outcome::Complete((items, _), _) ==> all_well_formed(items),
    decreases s.len(), 6int,
{
    lemma_run(s, Class::Blank);
    let blanks = run(s, Class::Blank) as int;
    if blanks < s.len() {
        let here = s.skip(blanks);
        read_data_is_well_formed(here);
        lemma_lisp_data_advances(here);
        if let Outcome::Complete(first, after) = lisp_data(here) {
            lemma_many0_data_well_formed(after);
            if let Outcome::Complete((more, why), stop) = many0_data(after) {
                let items = seq![first] + more;
                assert forall|i: int| 0 <= i < items.len() implies well_formed(
                    #[trigger] items[i],
                ) by {
                    if i > 0 {
                        assert(items[i] == more[i - 1]);
                    }
                }
            }
        }
    }
}

proof fn lemma_dotted_tail_well_formed(s: Seq<char>)
    ensures
        dotted_tail(s) matches Outcome::Complete(d, _) ==> well_formed(d),
    decreases s.len(), 6int,
{
    read_data_is_well_formed(s);
}

proof fn lemma_cons_well_formed(s: Seq<char>)
    ensures
        cons(s) matches Outcome::Complete(d, _) ==> well_formed(d),
    decreases s.len(), 3int,
{
    if s.len() > 0 && s[0] == '(' {
        lemma_many0_data_well_formed(s.skip(1));
        lemma_many0_data_stops(s.skip(1));
        if let Outcome::Complete((items, why), stop) = many0_data(s.skip(1)) {
            if stop[0] == ')' {
                lemma_chain_well_formed(items, Datum::Nil);
            } else if stop[0] == '.' {
                lemma_dotted_tail_well_formed(stop.skip(1));
                if let Outcome::Complete(last, _) = dotted_tail(stop.skip(1)) {
                    lemma_chain_well_formed(items, last);
                }
            }
        }
    }
}

proof fn lemma_vector_rest_well_formed(s: Seq<char>)
    ensures
        vector_rest(s) matches Outcome::Complete(d, _) ==> well_formed(d),
    decreases s.len(), 7int,
{
    lemma_many0_data_well_formed(s);
}

proof fn lemma_sharp_well_formed(s: Seq<char>)
    ensures
        sharp(s) matches Outcome::Complete(d, _) ==> well_formed(d),
    decreases s.len(), 3int,
{
    reveal(parse_num);
    if s.len() >= 2 && s[0] == '#' && s[1] == '(' {
        lemma_vector_rest_well_formed(s.skip(2));
    }
}

proof fn lemma_comment_well_formed(s: Seq<char>)
    ensures
        comment(s) matches Outcome::Complete(d, _) ==> well_formed(d),
    decreases s.len(), 3int,
{
    lemma_any_comment_advances(s);
    if let Outcome::Complete(_, rest) = any_comment(s) {
        read_data_is_well_formed(rest);
    }
}

} // verus!
