use desilence::engine::{concatenate_args, detect_args, engine_name, slice_args, Word};
use desilence::extractor::KeepInterval;

fn text(s: &str) -> Word {
    Word::Text(s.to_string())
}

#[test]
fn the_engine_is_ffmpeg() {
    assert_eq!(engine_name(), "ffmpeg");
}

#[test]
fn detection_decodes_the_input_through_the_silence_detector() {
    assert_eq!(
        detect_args(),
        vec![
            text("-i"),
            Word::Input,
            text("-af"),
            text("silencedetect=n=0.03:d=0.1"),
            text("-f"),
            text("null"),
            text("-"),
        ]
    );
}

#[test]
fn a_piece_is_cut_by_start_and_duration() {
    assert_eq!(
        slice_args(KeepInterval { start: 3_000_000, duration: 2_500_000 }),
        vec![
            text("-ss"),
            text("3.000000"),
            text("-t"),
            text("2.500000"),
            text("-i"),
            Word::Input,
            Word::Output,
        ]
    );
    assert_eq!(
        slice_args(KeepInterval { start: 0, duration: 10_001 }),
        vec![
            text("-ss"),
            text("0.000000"),
            text("-t"),
            text("0.010001"),
            text("-i"),
            Word::Input,
            Word::Output,
        ]
    );
}

#[test]
fn pieces_are_joined_by_stream_copy() {
    assert_eq!(
        concatenate_args(),
        vec![
            text("-f"),
            text("concat"),
            text("-safe"),
            text("0"),
            text("-i"),
            Word::Input,
            text("-c"),
            text("copy"),
            Word::Output,
        ]
    );
}
