//! The buffer between the source of text and the reader.
//!
//! The driver decides and its caller acts: the caller hands over each chunk
//! of text with [`Driver::feed`] and asks with [`Driver::step`] what to do
//! next, which is to pass on a datum, to fetch more text, or to report an
//! error.

use vstd::prelude::*;
use crate::data::{Datum, LispData};
use crate::grammar;
use crate::outcome::{Outcome, Parsed, Reason};
use crate::reader;

verus! {

/// What the caller of the driver has to do next.
#[derive(Debug, PartialEq, Eq)]
pub enum Action {
    /// A datum is complete: pass it on and ask again, the buffer may hold
    /// more.
    Emit(LispData),
    /// The buffer holds no complete datum: feed the next chunk, or stop where
    /// the source has run dry.
    NeedInput,
    /// The buffer held no datum and was emptied: report the reason and ask
    /// again.
    Report(Reason),
}

/// The mathematical value of an [`Action`].
pub enum Event {
    Emit(Datum),
    NeedInput,
    Report(Reason),
}

impl View for Action {
    type V = Event;

    open spec fn view(&self) -> Event {
        match *self {
            Action::Emit(value) => Event::Emit(value@),
            Action::NeedInput => Event::NeedInput,
            Action::Report(reason) => Event::Report(reason),
        }
    }
}

/// The buffer after one step, and what the step asks for. A datum leaves the
/// buffer with the text that held it; an error empties the buffer.
pub open spec fn step(buffer: Seq<char>) -> (Seq<char>, Event) {
    match grammar::lisp_data(buffer) {
        Outcome::Complete(value, rest) => (rest, Event::Emit(value)),
        Outcome::Incomplete => (buffer, Event::NeedInput),
        Outcome::SyntaxError(reason) => (Seq::empty(), Event::Report(reason)),
    }
}

/// The chunks joined into one text.
pub open spec fn concat(chunks: Seq<Seq<char>>) -> Seq<char>
    decreases chunks.len(),
{
    if chunks.len() == 0 {
        Seq::empty()
    } else {
        chunks[0] + concat(chunks.skip(1))
    }
}

/// What a caller sees first who steps a driver that holds `buffer` and feeds
/// it the next of `chunks` each time it asks for input: the first datum or
/// error with the buffer it leaves, or `NeedInput` when the chunks have run
/// out.
pub open spec fn first_event(buffer: Seq<char>, chunks: Seq<Seq<char>>) -> (Seq<char>, Event)
    decreases chunks.len(),
{
    if step(buffer).1 is NeedInput && chunks.len() > 0 {
        first_event(buffer + chunks[0], chunks.skip(1))
    } else {
        step(buffer)
    }
}

/// The text that has been fed and not yet read.
pub struct Driver {
    buffer: String,
}

impl View for Driver {
    type V = Seq<char>;

    closed spec fn view(&self) -> Seq<char> {
        self.buffer@
    }
}

impl Driver {
    /// A driver with an empty buffer.
    pub fn new() -> (driver: Driver)
        ensures
            driver@ == Seq::<char>::empty(),
    {
        Driver { buffer: String::new() }
    }

    /// Whether the buffer is empty, so that what is fed next starts afresh.
    pub fn is_empty(&self) -> (empty: bool)
        ensures
            empty == (self@.len() == 0),
    {
        self.buffer.as_str().is_empty()
    }

    /// Appends a chunk of text to the buffer.
    pub fn feed(&mut self, chunk: &str)
        ensures
            final(self)@ == old(self)@ + chunk@,
    {
        self.buffer.append(chunk);
    }

    /// Reads one datum from the front of the buffer, if it holds one.
    pub fn step(&mut self) -> (action: Action)
        ensures
            (final(self)@, action@) == step(old(self)@),
    {
        match reader::lisp_data(self.buffer.as_str()) {
            Parsed::Complete(value, rest) => {
                let left = rest.to_owned();
                self.buffer = left;
                Action::Emit(value)
            },
            Parsed::Incomplete => Action::NeedInput,
            Parsed::SyntaxError(reason) => {
                self.buffer = String::new();
                Action::Report(reason)
            },
        }
    }
}

} // verus!
