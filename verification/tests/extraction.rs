use desilence::extractor::{extract, KeepInterval, ScanState, MIN_GAP_MICROS};
use desilence::marker::{classify_line, Marker};

fn lines(text: &[&str]) -> Vec<String> {
    text.iter().map(|l| l.to_string()).collect()
}

fn span(start: i64, duration: i64) -> KeepInterval {
    KeepInterval { start, duration }
}

#[test]
fn first_start_closes_the_span_from_the_beginning() {
    let mut state = ScanState::new();
    let kept = state.feed("silence_start: 2.500000");
    assert_eq!(kept, Some(span(0, 2_500_000)));
    assert_eq!(state.last_silence_end(), 0);
    let seconds = kept.unwrap().duration as f64 / 1e6;
    assert_eq!(seconds, 2.5);
}

#[test]
fn gap_of_five_milliseconds_is_suppressed() {
    let kept = extract(&lines(&["silence_start: 1.0", "silence_end: 3.0", "silence_start: 3.005"]));
    assert_eq!(kept, vec![span(0, 1_000_000)]);
}

#[test]
fn stream_without_markers_keeps_nothing() {
    let kept = extract(&lines(&[
        "ffmpeg version 6.1 Copyright (c) 2000-2023 the FFmpeg developers",
        "Input #0, matroska,webm, from 'talk.mkv':",
        "  Duration: 00:10:00.00, start: 0.000000, bitrate: 1000 kb/s",
        "size=N/A time=00:10:00.00 bitrate=N/A speed= 500x",
        "",
    ]));
    assert_eq!(kept, vec![]);
    assert_eq!(extract(&Vec::new()), vec![]);
}

#[test]
fn stream_with_ends_only_keeps_nothing() {
    let kept = extract(&lines(&["silence_end: 1.5", "silence_end: 4", "silence_end: 9.25"]));
    assert_eq!(kept, vec![]);
}

#[test]
fn alternating_markers_keep_the_complement_of_the_silences() {
    let kept = extract(&lines(&[
        "[silencedetect @ 0x1] silence_start: 1.0",
        "[silencedetect @ 0x1] silence_end: 3.0 | silence_duration: 2.0",
        "frame= 120 fps=0.0 q=-0.0 size=N/A time=00:00:05.00 bitrate=N/A",
        "[silencedetect @ 0x1] silence_start: 5.5",
        "[silencedetect @ 0x1] silence_end: 6 | silence_duration: 0.5",
        "[silencedetect @ 0x1] silence_start: 10.000001",
        "[silencedetect @ 0x1] silence_end: 12.25 | silence_duration: 2.249999",
    ]));
    assert_eq!(
        kept,
        vec![span(0, 1_000_000), span(3_000_000, 2_500_000), span(6_000_000, 4_000_001)]
    );
}

#[test]
fn stream_that_begins_with_an_end_keeps_from_that_end() {
    let kept = extract(&lines(&["silence_end: 0.75", "silence_start: 2", "silence_end: 2.5"]));
    assert_eq!(kept, vec![span(750_000, 1_250_000)]);
}

#[test]
fn gap_at_the_threshold_is_suppressed_and_just_above_it_kept() {
    assert_eq!(MIN_GAP_MICROS, 10_000);
    let mut state = ScanState::new();
    assert_eq!(state.feed("silence_end: 1"), None);
    assert_eq!(state.feed("silence_start: 1.01"), None);
    assert_eq!(state.feed("silence_start: 1.010001"), Some(span(1_000_000, 10_001)));
    assert_eq!(state.feed("silence_start: 1.0"), None);
    assert_eq!(state.feed("silence_start: 0.995"), None);
    assert_eq!(state.last_silence_end(), 1_000_000);
}

#[test]
fn degenerate_start_is_a_no_op_however_often_it_comes() {
    let with = extract(&lines(&[
        "silence_end: 3.0",
        "silence_start: 3.005",
        "silence_start: 3.005",
        "silence_start: 3.005",
        "silence_start: 8",
    ]));
    let without = extract(&lines(&["silence_end: 3.0", "silence_start: 8"]));
    assert_eq!(with, without);
    assert_eq!(with, vec![span(3_000_000, 5_000_000)]);
}

#[test]
fn start_before_the_last_end_is_kept_with_a_negative_duration() {
    let mut state = ScanState::new();
    assert_eq!(state.feed("silence_end: 5"), None);
    assert_eq!(state.feed("silence_start: 2"), Some(span(5_000_000, -3_000_000)));
}

#[test]
fn malformed_timestamps_change_nothing() {
    let mut state = ScanState::new();
    assert_eq!(state.feed("silence_end: 4.0"), None);
    for line in [
        "silence_end: abc",
        "silence_end: ",
        "silence_end:   ",
        "silence_end: 1.2.3",
        "silence_end: 7,5",
        "silence_end: nan",
        "silence_end: inf",
        "silence_end: 1e13",
        "silence_start: abc",
        "silence_start: ",
        "silence_start: --3",
        "silence_start: 9.0|",
        "silence_start: \u{1F3B5}",
        "silence_end: abc silence_start: 9.0",
    ] {
        assert_eq!(state.feed(line), None, "{line:?}");
        assert_eq!(state.last_silence_end(), 4_000_000, "{line:?}");
    }
    assert_eq!(state.feed("silence_start: 9.0"), Some(span(4_000_000, 5_000_000)));
}

#[test]
fn detector_lines_are_classified() {
    assert_eq!(
        classify_line("[silencedetect @ 0x55d0c8a2e240] silence_start: 12.3456"),
        Marker::SilenceStart(12_345_600)
    );
    assert_eq!(
        classify_line(
            "[silencedetect @ 0x55d0c8a2e240] silence_end: 15.75 | silence_duration: 3.4044"
        ),
        Marker::SilenceEnd(15_750_000)
    );
    assert_eq!(
        classify_line("frame=  100 fps=0.0 q=-0.0 size=N/A time=00:00:04.00"),
        Marker::Other
    );
    assert_eq!(classify_line(""), Marker::Other);
    assert_eq!(classify_line("silence_start:1.0"), Marker::Other);
    assert_eq!(classify_line("silence_start 1.0"), Marker::Other);
    assert_eq!(classify_line("Silence_Start: 1.0"), Marker::Other);
}

#[test]
fn the_word_after_the_first_keyword_counts() {
    assert_eq!(classify_line("silence_start:    \t 1.5   2.5"), Marker::SilenceStart(1_500_000));
    assert_eq!(
        classify_line("silence_start: 1 silence_start: 2"),
        Marker::SilenceStart(1_000_000)
    );
    assert_eq!(classify_line("silence_start: x silence_start: 2"), Marker::Other);
    assert_eq!(classify_line("xsilence_end: -0.5"), Marker::SilenceEnd(-500_000));
    assert_eq!(classify_line("silence_end: 1.5\u{a0}rest"), Marker::SilenceEnd(1_500_000));
    assert_eq!(classify_line("silence_end: \u{3000}2\u{2003}"), Marker::SilenceEnd(2_000_000));
}

#[test]
fn a_line_with_both_keywords_reports_the_end() {
    assert_eq!(
        classify_line("silence_start: 1.0 silence_end: 2.0"),
        Marker::SilenceEnd(2_000_000)
    );
    assert_eq!(
        classify_line("silence_end: 2.0 silence_start: 1.0"),
        Marker::SilenceEnd(2_000_000)
    );
    assert_eq!(classify_line("silence_start: 1.0 silence_end: x"), Marker::Other);
}

#[test]
fn observing_markers_moves_the_cursor_only_at_an_end() {
    let mut state = ScanState::new();
    assert_eq!(state.observe(Marker::Other), None);
    assert_eq!(state.observe(Marker::SilenceStart(500_000)), Some(span(0, 500_000)));
    assert_eq!(state.last_silence_end(), 0);
    assert_eq!(state.observe(Marker::SilenceEnd(800_000)), None);
    assert_eq!(state.last_silence_end(), 800_000);
}
