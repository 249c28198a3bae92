//! The canonical text of a datum.

use vstd::prelude::*;
use vstd::std_specs::iter::IteratorSpec;
use crate::data::{Datum, LispData, models};

verus! {

/// The character of the digit `d`, for `d` from 0 to 9.
pub open spec fn digit_char(d: int) -> char {
    (d + '0' as int) as char
}

/// The decimal digits of `n`, without leading zeros.
pub open spec fn decimal(n: nat) -> Seq<char>
    decreases n,
{
    if n < 10 {
        seq![digit_char(n as int)]
    } else {
        decimal(n / 10).push(digit_char((n % 10) as int))
    }
}

/// The text of an integer: its decimal digits, after `-` where it is negative.
pub open spec fn print_num(n: int) -> Seq<char> {
    if n < 0 {
        seq!['-'] + decimal((-n) as nat)
    } else {
        decimal(n as nat)
    }
}

/// The characters of `s` with a backslash before every `"` and every `\`.
pub open spec fn escape(s: Seq<char>) -> Seq<char>
    decreases s.len(),
{
    if s.len() == 0 {
        Seq::empty()
    } else if s[0] == '"' || s[0] == '\\' {
        seq!['\\', s[0]] + escape(s.skip(1))
    } else {
        seq![s[0]] + escape(s.skip(1))
    }
}

/// The canonical text of `d`.
pub open spec fn print(d: Datum) -> Seq<char>
    decreases d, 0int,
{
    match d {
        Datum::Nil => seq!['(', ')'],
        Datum::Bool(b) => if b {
            seq!['#', 't']
        } else {
            seq!['#', 'f']
        },
        Datum::Num(n) => print_num(n as int),
        Datum::Symbol(name) => name,
        Datum::LispString(text) => seq!['"'] + escape(text) + seq!['"'],
        Datum::Vector(items) => if items.len() == 0 {
            seq!['#', '(', ')']
        } else {
            seq!['#', '('] + print(items[0]) + print_each(items.skip(1)) + seq![')']
        },
        Datum::Cons(first, rest) => seq!['('] + print(*first) + print_cdr(*rest) + seq![')'],
    }
}

/// The text of the rest of a list, after its first element: nothing for
/// `Nil`, a space and the next element for a pair, and ` . ` and the datum
/// for anything else.
pub open spec fn print_cdr(d: Datum) -> Seq<char>
    decreases d, 1int,
{
    match d {
        Datum::Nil => Seq::empty(),
        Datum::Cons(first, rest) => seq![' '] + print(*first) + print_cdr(*rest),
        _ => seq![' ', '.', ' '] + print(d),
    }
}

/// The texts of `items`, each after one space.
pub open spec fn print_each(items: Seq<Datum>) -> Seq<char>
    decreases items, 0int,
{
    if items.len() == 0 {
        Seq::empty()
    } else {
        seq![' '] + print(items[0]) + print_each(items.skip(1))
    }
}

/// Appends the decimal digits of `n` to `f`.
fn write_decimal(n: u64, f: &mut String)
    ensures
        final(f)@ == old(f)@ + decimal(n as nat),
    decreases n,
{
    if n >= 10 {
        write_decimal(n / 10, f);
    }
    let digit: u8 = (n % 10) as u8;
    f.push((48u8 + digit) as char);
}

/// Appends the text of the integer `n` to `f`.
pub fn write_num(n: i64, f: &mut String)
    ensures
        final(f)@ == old(f)@ + print_num(n as int),
{
    if n < 0 {
        f.push('-');
        let wide: i128 = n as i128;
        write_decimal((-wide) as u64, f);
    } else {
        write_decimal(n as u64, f);
    }
}

/// Appends the characters of `s` to `f`, with a backslash before every `"`
/// and every `\`.
pub fn write_escaped(s: &str, f: &mut String)
    ensures
        final(f)@ == old(f)@ + escape(s@),
{
    let ghost start = f@;
    let mut it = s.chars();
    loop
        invariant
            it.obeys_prophetic_iter_laws(),
            it.decrease() is Some,
            f@ + escape(it.remaining()) == start + escape(s@),
        ensures
            f@ == start + escape(s@),
        decreases it.decrease()->0,
    {
        match it.next() {
            Some(c) => {
                if c == '"' || c == '\\' {
                    f.push('\\');
                }
                f.push(c);
            },
            None => {
                break ;
            },
        }
    }
}

/// Appends to `f` the text of the rest of a list whose first element is
/// already written: the elements of `data` while it is a pair, each after a
/// space, and ` . ` with the last datum where the chain does not end in `Nil`.
pub fn write_cdr(data: &LispData, f: &mut String)
    ensures
        final(f)@ == old(f)@ + print_cdr(data@),
    decreases data, 1int,
{
    match data {
        LispData::Nil => {},
        LispData::Cons(a, b) => {
            f.push(' ');
            a.fmt(f);
            write_cdr(b, f);
        },
        _ => {
            f.push(' ');
            f.push('.');
            f.push(' ');
            data.fmt(f);
        },
    }
}

/// The texts of `items` with one space between each two.
pub open spec fn print_items(items: Seq<Datum>) -> Seq<char> {
    if items.len() == 0 {
        Seq::empty()
    } else {
        print(items[0]) + print_each(items.skip(1))
    }
}

/// Appends the texts of `items` to `f`, with one space between each two.
#[verifier::loop_isolation(false)]
pub fn write_items(items: &Vec<LispData>, f: &mut String)
    ensures
        final(f)@ == old(f)@ + print_items(models(items@)),
    decreases items, 2int,
{
    let ghost start = f@;
    let ghost values = models(items@);
    if items.len() > 0 {
        items[0].fmt(f);
        let mut i: usize = 1;
        while i < items.len()
            invariant
                1 <= i <= items.len(),
                f@ + print_each(values.skip(i as int)) == start + print_items(values),
            decreases items.len() - i,
        {
            assert(values.skip(i as int).skip(1) == values.skip(i + 1));
            f.push(' ');
            items[i].fmt(f);
            i += 1;
        }
        assert(print_each(values.skip(items.len() as int)) =~= Seq::<char>::empty());
    }
    assert(f@ =~= start + print_items(values));
}

impl LispData {
    /// Appends the canonical text of this datum to `f`.
    pub fn fmt(&self, f: &mut String)
        ensures
            final(f)@ == old(f)@ + print(self@),
        decreases self, 0int,
    {
        let ghost start = f@;
        match self {
            LispData::Nil => {
                f.push('(');
                f.push(')');
            },
            LispData::Bool(b) => {
                f.push('#');
                f.push(
                    if *b {
                        't'
                    } else {
                        'f'
                    },
                );
            },
            LispData::Num(n) => write_num(*n, f),
            LispData::Symbol(s) => f.append(s.as_str()),
            LispData::LispString(s) => {
                f.push('"');
                write_escaped(s.as_str(), f);
                f.push('"');
            },
            LispData::Vector(v) => {
                f.push('#');
                f.push('(');
                write_items(v, f);
                f.push(')');
            },
            LispData::Cons(a, b) => {
                f.push('(');
                a.fmt(f);
                write_cdr(b, f);
                f.push(')');
            },
        }
        assert(f@ =~= start + print(self@));
    }

    /// The canonical text of this datum.
    pub fn to_text(&self) -> (text: String)
        ensures
            text@ == print(self@),
    {
        let mut text = String::new();
        self.fmt(&mut text);
        text
    }
}

} // verus!
