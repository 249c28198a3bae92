//! An incremental reader for S-expressions.
//!
//! Text arrives in chunks. [`reader::lisp_data`] reads one datum from the
//! front of the buffered text and reports either the datum with the text that
//! follows it, that the text is so far only the beginning of a datum, or that
//! it can never become one. [`data::LispData::fmt`] writes a datum back in its
//! canonical form, and [`driver::Driver`] holds the buffer between chunks.
//!
//! Every executable function is proved to compute the mathematical grammar of
//! [`grammar`] or the rendering of [`render`]. On top of that the crate
//! proves what grammar and rendering promise together:
//!
//! - [`roundtrip::round_trip`]: what is printed reads back as the same datum;
//! - [`gaps::blanks_in_gaps`], [`roundtrip::blanks_between_tokens`] and
//!   [`blanks`]: blanks between tokens do not matter;
//! - [`streaming::chunking_is_invisible`]: it does not matter where the
//!   source cuts its chunks;
//! - [`streaming::error_resynchronizes`]: after an error the next chunk is
//!   read afresh;
//! - [`local::reading_is_local`]: the reader looks no further than one
//!   character past a datum;
//! - [`wellformed::read_data_is_well_formed`]: every symbol that is read has
//!   the text of a symbol.

pub mod data;
pub mod outcome;
pub mod token;
pub mod scan;
pub mod grammar;
pub mod render;
pub mod progress;
pub mod reader;
pub mod driver;
pub mod streaming;
pub mod roundtrip;
pub mod wellformed;
pub mod blanks;
pub mod local;
pub mod gaps;
