//! The verified core of a small scheduling service that plays audio at
//! configured times: the binary timetable and configuration codec, the
//! queue of scheduled events with its binary persistence, the calendar
//! arithmetic they both rest on, and the tabular text format used for
//! import and export.  The surrounding program, which does the networking,
//! the file handling and the audio output, lives outside this crate and
//! hands plain values in and out.

use vstd::prelude::*;

pub mod config;
pub mod csv;
pub mod error;
pub mod events;
pub mod text;
pub mod time;

pub use crate::error::Error;

verus! {

} // verus!
