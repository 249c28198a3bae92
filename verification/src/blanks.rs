//! Blanks in front of a datum or of an element do not matter.

use vstd::prelude::*;
use crate::grammar::{dotted_tail, form, lisp_data, many0_data};
use crate::token::{is_blank, lemma_run, lemma_run_exact, run, Class};

verus! {

/// Every character of `b` is a space, a tab, a carriage return or a line
/// feed.
pub open spec fn all_blank(b: Seq<char>) -> bool {
    forall|i: int| 0 <= i < b.len() ==> is_blank(#[trigger] b[i])
}

/// A text that begins with no blank is read from its first character.
pub(crate) proof fn lemma_no_blank_in_front(s: Seq<char>)
    requires
        s.len() > 0,
        !is_blank(s[0]),
    ensures
        lisp_data(s) == form(s),
{
    lemma_run_exact(s, Class::Blank, 0);
    assert(s.skip(0) =~= s);
}

/// Blanks in front lengthen the run of blanks by their number.
pub(crate) proof fn lemma_blank_run(b: Seq<char>, s: Seq<char>)
    requires
        all_blank(b),
    ensures
        run(b + s, Class::Blank) == b.len() + run(s, Class::Blank),
    decreases b.len(),
{
    if b.len() == 0 {
        assert(b + s =~= s);
    } else {
        let later = b.skip(1);
        assert((b + s)[0] == b[0]);
        assert(is_blank(b[0]));
        assert((b + s).skip(1) =~= later + s);
        assert forall|i: int| 0 <= i < later.len() implies is_blank(#[trigger] later[i]) by {
            assert(later[i] == b[i + 1]);
        }
        lemma_blank_run(later, s);
    }
}

/// Blanks in front of a text change nothing in what is read from it, neither
/// the datum nor the text left over.
pub proof fn blanks_before_datum(b: Seq<char>, s: Seq<char>)
    requires
        all_blank(b),
    ensures
        lisp_data(b + s) == lisp_data(s),
{
    lemma_blank_run(b, s);
    lemma_run(s, Class::Blank);
    let blanks = run(s, Class::Blank) as int;
    if blanks < s.len() {
        assert((b + s).skip(b.len() + blanks) =~= s.skip(blanks));
    }
}

/// Blanks in front of the elements of a list or a vector, or in front of
/// what ends them, change nothing in what is read.
pub proof fn blanks_before_elements(b: Seq<char>, s: Seq<char>)
    requires
        all_blank(b),
    ensures
        many0_data(b + s) == many0_data(s),
{
    lemma_blank_run(b, s);
    lemma_run(s, Class::Blank);
    let blanks = run(s, Class::Blank) as int;
    if blanks < s.len() {
        assert((b + s).skip(b.len() + blanks) =~= s.skip(blanks));
    }
}

/// Blanks behind the lone `.` of a list change nothing in what is read.
pub proof fn blanks_after_dot(b: Seq<char>, s: Seq<char>)
    requires
        all_blank(b),
    ensures
        dotted_tail(b + s) == dotted_tail(s),
{
    blanks_before_datum(b, s);
}

} // verus!
