//! Cuts the silence out of a recording.
//!
//! A media engine does the work on the recording itself: it detects the
//! silent spans, cuts the spans between them into pieces, and joins the
//! pieces. This library holds what is decided in between, and nothing of it
//! touches a file or a process:
//!
//! - [`text`] and [`digits`] read and write characters, words and numbers;
//! - [`timestamp`] says what a word of the detector's diagnostic stream is
//!   worth as a time, counted in whole microseconds;
//! - [`marker`] tells what a line of that stream reports;
//! - [`extractor`] turns the markers into the spans that are kept;
//! - [`manifest`] names the pieces and writes the playlist that lists them;
//! - [`engine`] writes the engine's command lines;
//! - [`driver`] decides, step by step, what a run does next.

pub mod digits;
pub mod driver;
pub mod engine;
pub mod extractor;
pub mod manifest;
pub mod marker;
pub mod text;
pub mod timestamp;
