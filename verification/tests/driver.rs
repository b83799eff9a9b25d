use desilence::driver::{exit_code, Action, Driver, Event, Failure, Phase};
use desilence::extractor::KeepInterval;

fn line(text: &str) -> Event {
    Event::Line(text.to_string())
}

fn scanning() -> Driver {
    let mut driver = Driver::new();
    assert_eq!(driver.step(&Event::OutputChecked { exists: false }), Action::Prepare);
    assert_eq!(driver.step(&Event::Succeeded), Action::ReadLine);
    assert_eq!(driver.phase(), Phase::Scanning);
    driver
}

fn failed(cause: Failure, code: i32) -> Phase {
    Phase::Failed { cause, code }
}

#[test]
fn a_run_begins_with_nothing_done() {
    let driver = Driver::new();
    assert_eq!(driver.phase(), Phase::Init);
    assert_eq!(driver.lines(), 0);
    assert_eq!(driver.pieces(), 0);
}

#[test]
fn existing_output_fails_with_code_1_before_anything_is_prepared() {
    let mut driver = Driver::new();
    assert_eq!(driver.step(&Event::OutputChecked { exists: true }), Action::Exit { code: 1 });
    assert_eq!(driver.phase(), failed(Failure::OutputExists, 1));
    for event in [Event::Succeeded, line("silence_start: 5"), Event::Failed { code: Some(9) }] {
        assert_eq!(driver.step(&event), Action::Exit { code: 1 });
        assert_eq!(driver.phase(), failed(Failure::OutputExists, 1));
    }
    assert_eq!(driver.pieces(), 0);
}

#[test]
fn a_second_run_against_the_output_of_the_first_fails() {
    let mut first = scanning();
    assert_eq!(
        first.step(&line("silence_start: 2")),
        Action::Extract { interval: KeepInterval { start: 0, duration: 2_000_000 }, piece: 0 }
    );
    assert_eq!(first.step(&Event::Succeeded), Action::ReadLine);
    assert_eq!(first.step(&Event::Succeeded), Action::Concatenate);
    assert_eq!(first.step(&Event::Succeeded), Action::Exit { code: 0 });
    let mut second = Driver::new();
    assert_eq!(second.step(&Event::OutputChecked { exists: true }), Action::Exit { code: 1 });
}

#[test]
fn a_whole_run_cuts_each_kept_span_and_joins_them() {
    let mut driver = scanning();
    assert_eq!(driver.step(&line("Input #0, matroska,webm, from 'talk.mkv':")), Action::ReadLine);
    assert_eq!(
        driver.step(&line("[silencedetect @ 0x1] silence_start: 1.5")),
        Action::Extract { interval: KeepInterval { start: 0, duration: 1_500_000 }, piece: 1 }
    );
    assert_eq!(driver.phase(), Phase::Extracting);
    assert_eq!(driver.step(&Event::Succeeded), Action::ReadLine);
    assert_eq!(
        driver.step(&line("[silencedetect @ 0x1] silence_end: 4 | silence_duration: 2.5")),
        Action::ReadLine
    );
    assert_eq!(driver.step(&line("[silencedetect @ 0x1] silence_start: 4.003")), Action::ReadLine);
    assert_eq!(
        driver.step(&line("[silencedetect @ 0x1] silence_start: 9.25")),
        Action::Extract {
            interval: KeepInterval { start: 4_000_000, duration: 5_250_000 },
            piece: 4
        }
    );
    assert_eq!(driver.step(&Event::Succeeded), Action::ReadLine);
    assert_eq!(driver.lines(), 5);
    assert_eq!(driver.pieces(), 2);
    assert_eq!(driver.step(&Event::Succeeded), Action::Concatenate);
    assert_eq!(driver.phase(), Phase::Concatenating);
    assert_eq!(driver.step(&Event::Succeeded), Action::Exit { code: 0 });
    assert_eq!(driver.phase(), Phase::Done);
    assert_eq!(driver.step(&line("silence_start: 20")), Action::Exit { code: 0 });
    assert_eq!(driver.phase(), Phase::Done);
}

#[test]
fn no_detected_silence_ends_the_run_without_joining() {
    let mut driver = scanning();
    for text in ["Stream #0:0: Audio: opus, 48000 Hz, stereo", "size=N/A time=00:01:00.00", ""] {
        assert_eq!(driver.step(&line(text)), Action::ReadLine);
    }
    assert_eq!(driver.pieces(), 0);
    assert_eq!(driver.step(&Event::Succeeded), Action::Exit { code: 1 });
    assert_eq!(driver.phase(), failed(Failure::NothingToKeep, 1));
}

#[test]
fn an_empty_stream_ends_the_run_without_joining() {
    let mut driver = scanning();
    assert_eq!(driver.step(&Event::Succeeded), Action::Exit { code: 1 });
    assert_eq!(driver.phase(), failed(Failure::NothingToKeep, 1));
}

#[test]
fn failures_end_the_run_with_their_code() {
    let mut driver = Driver::new();
    driver.step(&Event::OutputChecked { exists: false });
    assert_eq!(driver.step(&Event::Failed { code: Some(13) }), Action::Exit { code: 13 });
    assert_eq!(driver.phase(), failed(Failure::Setup, 13));

    let mut driver = scanning();
    assert_eq!(driver.step(&Event::Failed { code: Some(69) }), Action::Exit { code: 69 });
    assert_eq!(driver.phase(), failed(Failure::Detection, 69));

    let mut driver = scanning();
    driver.step(&line("silence_start: 3"));
    assert_eq!(driver.step(&Event::Failed { code: Some(-2) }), Action::Exit { code: -2 });
    assert_eq!(driver.phase(), failed(Failure::Extraction, -2));
    assert_eq!(driver.step(&Event::Succeeded), Action::Exit { code: -2 });

    let mut driver = scanning();
    driver.step(&line("silence_start: 3"));
    driver.step(&Event::Succeeded);
    assert_eq!(driver.step(&Event::Succeeded), Action::Concatenate);
    assert_eq!(driver.step(&Event::Failed { code: Some(187) }), Action::Discard);
    assert_eq!(driver.phase(), Phase::Discarding { code: 187 });
    assert_eq!(driver.step(&Event::Succeeded), Action::Exit { code: 187 });
    assert_eq!(driver.phase(), failed(Failure::Concatenation, 187));
}

#[test]
fn a_failed_join_ends_with_its_code_even_if_the_output_cannot_be_removed() {
    let mut driver = scanning();
    driver.step(&line("silence_start: 3"));
    driver.step(&Event::Succeeded);
    assert_eq!(driver.step(&Event::Succeeded), Action::Concatenate);
    assert_eq!(driver.step(&Event::Failed { code: None }), Action::Discard);
    assert_eq!(driver.step(&Event::Failed { code: Some(5) }), Action::Exit { code: 1 });
    assert_eq!(driver.phase(), failed(Failure::Concatenation, 1));

    let mut driver = scanning();
    driver.step(&line("silence_start: 3"));
    driver.step(&Event::Succeeded);
    driver.step(&Event::Succeeded);
    assert_eq!(driver.step(&Event::Failed { code: Some(4) }), Action::Discard);
    assert_eq!(driver.step(&line("silence_start: 9")), Action::Exit { code: 1 });
    assert_eq!(driver.phase(), failed(Failure::OutOfTurn, 1));
}

#[test]
fn a_failure_without_a_code_exits_with_1() {
    assert_eq!(exit_code(None), 1);
    assert_eq!(exit_code(Some(0)), 0);
    assert_eq!(exit_code(Some(2)), 2);
    assert_eq!(exit_code(Some(-7)), -7);
    let mut driver = scanning();
    driver.step(&line("silence_start: 3"));
    assert_eq!(driver.step(&Event::Failed { code: None }), Action::Exit { code: 1 });
    assert_eq!(driver.phase(), failed(Failure::Extraction, 1));
}

#[test]
fn events_out_of_turn_end_the_run() {
    let mut driver = Driver::new();
    assert_eq!(driver.step(&Event::Succeeded), Action::Exit { code: 1 });
    assert_eq!(driver.phase(), failed(Failure::OutOfTurn, 1));

    let mut driver = Driver::new();
    assert_eq!(driver.step(&line("silence_start: 3")), Action::Exit { code: 1 });
    assert_eq!(driver.pieces(), 0);

    let mut driver = scanning();
    assert_eq!(driver.step(&Event::OutputChecked { exists: false }), Action::Exit { code: 1 });
    assert_eq!(driver.phase(), failed(Failure::OutOfTurn, 1));

    let mut driver = scanning();
    driver.step(&line("silence_start: 3"));
    assert_eq!(driver.step(&line("silence_end: 4")), Action::Exit { code: 1 });
    assert_eq!(driver.phase(), failed(Failure::OutOfTurn, 1));
}

#[test]
fn pieces_bear_the_number_of_their_line() {
    let mut driver = scanning();
    let mut pieces = Vec::new();
    for n in 0..40 {
        let end = format!("silence_end: {}", n * 10);
        assert_eq!(driver.step(&line(&end)), Action::ReadLine);
        let start = format!("silence_start: {}", n * 10 + 5);
        match driver.step(&line(&start)) {
            Action::Extract { interval, piece } => {
                assert_eq!(interval, KeepInterval { start: n * 10_000_000, duration: 5_000_000 });
                pieces.push(piece);
                assert_eq!(driver.step(&Event::Succeeded), Action::ReadLine);
            }
            other => panic!("{other:?}"),
        }
    }
    let expected: Vec<u64> = (0..40).map(|n| 2 * n + 1).collect();
    assert_eq!(pieces, expected);
}

#[test]
fn the_driver_cuts_exactly_what_the_extractor_keeps() {
    let stream = [
        "silence_start: 0.004",
        "silence_end: 1.25",
        "noise",
        "silence_start: 7",
        "silence_end: bad",
        "silence_end: 8.5",
        "silence_start: 8.509",
        "silence_start: 8.52",
        "silence_end: 30 | silence_duration: 21.48",
    ];
    let lines: Vec<String> = stream.iter().map(|l| l.to_string()).collect();
    let mut driver = scanning();
    let mut cut = Vec::new();
    for text in &lines {
        match driver.step(&Event::Line(text.clone())) {
            Action::Extract { interval, .. } => {
                cut.push(interval);
                assert_eq!(driver.step(&Event::Succeeded), Action::ReadLine);
            }
            other => assert_eq!(other, Action::ReadLine),
        }
    }
    assert_eq!(cut, desilence::extractor::extract(&lines));
    assert_eq!(
        cut,
        vec![
            KeepInterval { start: 1_250_000, duration: 5_750_000 },
            KeepInterval { start: 8_500_000, duration: 20_000 },
        ]
    );
    assert_eq!(driver.pieces(), 2);
}
