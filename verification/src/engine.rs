//! The three runs of the media engine: what is written on its command line
//! to detect silence, to cut one piece, and to join the pieces.

use vstd::prelude::*;
use crate::extractor::KeepInterval;
use crate::timestamp::{seconds_chars, seconds_text};

verus! {

/// One word of the engine's command line.
#[derive(Clone, Debug, PartialEq, Eq)]
pub enum Word {
    /// A word that is written as it stands.
    Text(String),
    /// The place of the path that the run reads.
    Input,
    /// The place of the path that the run writes.
    Output,
}

/// What a [`Word`] says: its text, or which path takes its place.
pub enum WordChars {
    /// A word that is written as it stands.
    Text(Seq<char>),
    /// The place of the path that the run reads.
    Input,
    /// The place of the path that the run writes.
    Output,
}

impl View for Word {
    type V = WordChars;

    open spec fn view(&self) -> WordChars {
        match self {
            Word::Text(s) => WordChars::Text(s@),
            Word::Input => WordChars::Input,
            Word::Output => WordChars::Output,
        }
    }
}

/// What each of `words` says.
pub open spec fn words_of(words: Seq<Word>) -> Seq<WordChars> {
    Seq::new(words.len(), |i: int| words[i]@)
}

/// The name under which the engine is run.
pub open spec fn engine_chars() -> Seq<char> {
    "ffmpeg"@
}

/// The command line that detects silence in the input: the input is decoded
/// through the silence detector, with a noise threshold of 0.03 of full scale
/// and a shortest silence of 0.1 seconds, and nothing is written.
pub open spec fn detect_words() -> Seq<WordChars> {
    seq![
        WordChars::Text("-i"@),
        WordChars::Input,
        WordChars::Text("-af"@),
        WordChars::Text("silencedetect=n=0.03:d=0.1"@),
        WordChars::Text("-f"@),
        WordChars::Text("null"@),
        WordChars::Text("-"@),
    ]
}

/// The command line that cuts the span `interval` from the input into the
/// output.
pub open spec fn slice_words(interval: KeepInterval) -> Seq<WordChars> {
    seq![
        WordChars::Text("-ss"@),
        WordChars::Text(seconds_chars(interval.start as int)),
        WordChars::Text("-t"@),
        WordChars::Text(seconds_chars(interval.duration as int)),
        WordChars::Text("-i"@),
        WordChars::Input,
        WordChars::Output,
    ]
}

/// The command line that joins the pieces listed in the input, a manifest,
/// into the output, copying their streams as they are.
pub open spec fn concatenate_words() -> Seq<WordChars> {
    seq![
        WordChars::Text("-f"@),
        WordChars::Text("concat"@),
        WordChars::Text("-safe"@),
        WordChars::Text("0"@),
        WordChars::Text("-i"@),
        WordChars::Input,
        WordChars::Text("-c"@),
        WordChars::Text("copy"@),
        WordChars::Output,
    ]
}

/// The word that is written as `s` stands.
fn text(s: &str) -> (w: Word)
    ensures
        w@ == WordChars::Text(s@),
{
    Word::Text(String::from_str(s))
}

/// The name under which the engine is run.
pub fn engine_name() -> (name: &'static str)
    ensures
        name@ == engine_chars(),
{
    "ffmpeg"
}

/// The command line that detects silence in the input.
pub fn detect_args() -> (words: Vec<Word>)
    ensures
        words_of(words@) == detect_words(),
{
    let mut words: Vec<Word> = Vec::new();
    words.push(text("-i"));
    words.push(Word::Input);
    words.push(text("-af"));
    words.push(text("silencedetect=n=0.03:d=0.1"));
    words.push(text("-f"));
    words.push(text("null"));
    words.push(text("-"));
    assert(words_of(words@) =~= detect_words());
    words
}

/// The command line that cuts the span `interval` from the input into the
/// output.
pub fn slice_args(interval: KeepInterval) -> (words: Vec<Word>)
    ensures
        words_of(words@) == slice_words(interval),
{
    let mut words: Vec<Word> = Vec::new();
    words.push(text("-ss"));
    words.push(Word::Text(seconds_text(interval.start)));
    words.push(text("-t"));
    words.push(Word::Text(seconds_text(interval.duration)));
    words.push(text("-i"));
    words.push(Word::Input);
    words.push(Word::Output);
    assert(words_of(words@) =~= slice_words(interval));
    words
}

/// The command line that joins the pieces listed in the input into the
/// output.
pub fn concatenate_args() -> (words: Vec<Word>)
    ensures
        words_of(words@) == concatenate_words(),
{
    let mut words: Vec<Word> = Vec::new();
    words.push(text("-f"));
    words.push(text("concat"));
    words.push(text("-safe"));
    words.push(text("0"));
    words.push(text("-i"));
    words.push(Word::Input);
    words.push(text("-c"));
    words.push(text("copy"));
    words.push(Word::Output);
    assert(words_of(words@) =~= concatenate_words());
    words
}

} // verus!
