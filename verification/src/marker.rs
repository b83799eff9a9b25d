//! Silence markers: the lines by which the detector reports where a silent
//! span starts and where it ends.

use vstd::prelude::*;
use crate::text::{chars_of, contains, find, first_occurrence, first_word, word_from};
use crate::text::{lemma_first_occurrence_is, lemma_first_occurrence_none};
use crate::timestamp::{parse_micros, timestamp_micros, MAX_MICROS};

verus! {

/// What a line of the diagnostic stream reports.
#[derive(Clone, Copy, Debug, PartialEq, Eq, Structural)]
pub enum Marker {
    /// A silent span ends at this timestamp.
    SilenceEnd(i64),
    /// A silent span starts at this timestamp.
    SilenceStart(i64),
    /// The line reports neither, or what it reports cannot be read.
    Other,
}

impl Marker {
    /// Whether the timestamp that the marker carries, if any, is within
    /// [`MAX_MICROS`] in magnitude.
    pub open spec fn in_range(self) -> bool {
        match self {
            Marker::SilenceEnd(t) => -MAX_MICROS <= t <= MAX_MICROS,
            Marker::SilenceStart(t) => -MAX_MICROS <= t <= MAX_MICROS,
            Marker::Other => true,
        }
    }
}

/// The keyword that comes before the timestamp at which silence ends.
pub open spec fn end_keyword() -> Seq<char> {
    "silence_end: "@
}

/// The keyword that comes before the timestamp at which silence starts.
pub open spec fn start_keyword() -> Seq<char> {
    "silence_start: "@
}

/// The timestamp that `line` gives for `keyword`: the worth of the word that
/// follows the first place where `keyword` stands. `None` where `keyword`
/// stands nowhere in `line`, no word follows it, or the word is no timestamp.
pub open spec fn keyword_value(line: Seq<char>, keyword: Seq<char>) -> Option<int> {
    match first_occurrence(line, keyword) {
        None => None,
        Some(at) => timestamp_micros(first_word(line.skip(at + keyword.len()))),
    }
}

/// What `line` reports. A line that holds the end keyword is read for the end
/// of a silence and for nothing else; one that holds only the start keyword
/// is read for a start. Where the timestamp cannot be read the line reports
/// nothing.
pub open spec fn classify(line: Seq<char>) -> Marker {
    if contains(line, end_keyword()) {
        match keyword_value(line, end_keyword()) {
            Some(t) => Marker::SilenceEnd(t as i64),
            None => Marker::Other,
        }
    } else if contains(line, start_keyword()) {
        match keyword_value(line, start_keyword()) {
            Some(t) => Marker::SilenceStart(t as i64),
            None => Marker::Other,
        }
    } else {
        Marker::Other
    }
}

/// Whatever a line reports, its timestamp is in range.
pub proof fn lemma_classify_in_range(line: Seq<char>)
    ensures
        classify(line).in_range(),
{
}

/// What looking for a keyword in a line came to.
enum Reading {
    /// The keyword stands nowhere in the line.
    Absent,
    /// The keyword is there, and no timestamp follows it.
    Malformed,
    /// The keyword is there, followed by this timestamp.
    Value(i64),
}

/// Looks for `keyword` in `line` and reads the timestamp that follows it.
fn read_keyword(line: &[char], keyword: &[char]) -> (r: Reading)
    ensures
        match r {
            Reading::Absent => !contains(line@, keyword@),
            Reading::Malformed => contains(line@, keyword@) && keyword_value(line@, keyword@)
                is None,
            Reading::Value(t) => contains(line@, keyword@) && keyword_value(line@, keyword@)
                == Some(t as int) && -MAX_MICROS <= t <= MAX_MICROS,
        },
{
    match find(line, keyword) {
        None => {
            proof {
                lemma_first_occurrence_none(line@, keyword@);
            }
            Reading::Absent
        },
        Some(at) => {
            proof {
                lemma_first_occurrence_none(line@, keyword@);
            }
            let (lo, hi) = word_from(line, at + keyword.len());
            match parse_micros(&line[lo..hi]) {
                None => Reading::Malformed,
                Some(t) => Reading::Value(t),
            }
        },
    }
}

/// What the characters `line` report.
pub fn classify_chars(line: &[char]) -> (m: Marker)
    ensures
        m == classify(line@),
        m.in_range(),
{
    let end = chars_of("silence_end: ");
    match read_keyword(line, end.as_slice()) {
        Reading::Value(t) => Marker::SilenceEnd(t),
        Reading::Malformed => Marker::Other,
        Reading::Absent => {
            let start = chars_of("silence_start: ");
            match read_keyword(line, start.as_slice()) {
                Reading::Value(t) => Marker::SilenceStart(t),
                Reading::Malformed => Marker::Other,
                Reading::Absent => Marker::Other,
            }
        },
    }
}

/// What `line` reports.
pub fn classify_line(line: &str) -> (m: Marker)
    ensures
        m == classify(line@),
        m.in_range(),
{
    let chars = chars_of(line);
    classify_chars(chars.as_slice())
}

} // verus!
