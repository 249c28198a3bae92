//! The values that the reader produces, and their mathematical model.

use vstd::prelude::*;
use crate::token::{is_digit, is_token, Radix};

verus! {

/// One datum as the reader holds it in memory.
#[derive(Debug, PartialEq, Eq)]
pub enum LispData {
    /// The empty list, which also ends every proper list.
    Nil,
    Bool(bool),
    Num(i64),
    Symbol(String),
    LispString(String),
    Vector(Vec<LispData>),
    /// A pair of a first element and the rest of the list.
    Cons(Box<LispData>, Box<LispData>),
}

/// The mathematical value of a datum: text is a sequence of characters and a
/// vector a sequence of values.
pub enum Datum {
    Nil,
    Bool(bool),
    Num(i64),
    Symbol(Seq<char>),
    LispString(Seq<char>),
    Vector(Seq<Datum>),
    Cons(Box<Datum>, Box<Datum>),
}

/// Whether `name` is the text of a symbol as the reader reads one: a run of
/// symbol characters, not empty and not a lone `.`, that begins neither as a
/// line comment nor as a number.
pub open spec fn is_symbol_name(name: Seq<char>) -> bool {
    &&& name.len() > 0
    &&& forall|i: int| 0 <= i < name.len() ==> is_token(#[trigger] name[i])
    &&& name != seq!['.']
    &&& name[0] != ';'
    &&& !is_digit(name[0], Radix::Decimal)
    &&& !(name[0] == '-' && name.len() > 1 && is_digit(name[1], Radix::Decimal))
}

/// Whether every symbol inside `d` has the text of a symbol.
pub open spec fn well_formed(d: Datum) -> bool
    decreases d,
{
    match d {
        Datum::Symbol(name) => is_symbol_name(name),
        Datum::Vector(items) => forall|i: int|
            0 <= i < items.len() ==> well_formed(#[trigger] items[i]),
        Datum::Cons(first, rest) => well_formed(*first) && well_formed(*rest),
        _ => true,
    }
}

impl LispData {
    /// The mathematical value of this datum.
    pub open spec fn model(self) -> Datum
        decreases self,
    {
        match self {
            LispData::Nil => Datum::Nil,
            LispData::Bool(b) => Datum::Bool(b),
            LispData::Num(n) => Datum::Num(n),
            LispData::Symbol(s) => Datum::Symbol(s@),
            LispData::LispString(s) => Datum::LispString(s@),
            LispData::Vector(v) => Datum::Vector(models(v@)),
            LispData::Cons(a, b) => Datum::Cons(Box::new((*a).model()), Box::new((*b).model())),
        }
    }
}

/// The mathematical values of a sequence of data, in order.
pub open spec fn models(v: Seq<LispData>) -> Seq<Datum>
    decreases v,
{
    Seq::new(v.len(), |i: int| if 0 <= i < v.len() { v[i].model() } else { Datum::Nil })
}

impl Clone for LispData {
    #[verifier::loop_isolation(false)]
    fn clone(&self) -> (copy: LispData)
        ensures
            copy@ == self@,
        decreases self,
    {
        match self {
            LispData::Nil => LispData::Nil,
            LispData::Bool(b) => LispData::Bool(*b),
            LispData::Num(n) => LispData::Num(*n),
            LispData::Symbol(s) => LispData::Symbol(s.clone()),
            LispData::LispString(s) => LispData::LispString(s.clone()),
            LispData::Vector(v) => {
                let mut items: Vec<LispData> = Vec::new();
                let mut i: usize = 0;
                while i < v.len()
                    invariant
                        i <= v.len(),
                        items@.len() == i,
                        forall|j: int| 0 <= j < i ==> (#[trigger] items@[j]).model() == v@[j].model(),
                    decreases v.len() - i,
                {
                    let item = v[i].clone();
                    items.push(item);
                    i += 1;
                }
                assert(models(items@) =~= models(v@));
                LispData::Vector(items)
            },
            LispData::Cons(a, b) => {
                let first = (**a).clone();
                let rest = (**b).clone();
                LispData::Cons(Box::new(first), Box::new(rest))
            },
        }
    }
}

impl View for LispData {
    type V = Datum;

    open spec fn view(&self) -> Datum {
        self.model()
    }
}

impl DeepView for LispData {
    type V = Datum;

    open spec fn deep_view(&self) -> Datum {
        self.model()
    }
}

} // verus!
