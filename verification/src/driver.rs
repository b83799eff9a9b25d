//! The driver of a run: which step comes next, given how the last one went.
//!
//! A run checks that the output is free, prepares its workspace and starts
//! the detector, reads the diagnostic stream line by line and cuts a piece
//! for every span that a line closes, and joins the pieces when the stream
//! has ended. The driver decides; whoever runs it performs each [`Action`]
//! and hands back what came of it as an [`Event`]. Any failure ends the run,
//! and nothing is tried twice. A run either ends well, with the output
//! joined, or leaves no output: where joining fails, what it has written is
//! removed before the run ends.

use vstd::prelude::*;
use crate::extractor::{end_after, end_after_all, kept_at, markers_of, scan};
use crate::extractor::{KeepInterval, ScanState};
use crate::marker::{classify, Marker};

verus! {

/// Why a run failed.
#[derive(Clone, Copy, Debug, PartialEq, Eq, Structural)]
pub enum Failure {
    /// The output path is taken already.
    OutputExists,
    /// The workspace could not be prepared, or the detector not started.
    Setup,
    /// The detector ended with a failure.
    Detection,
    /// A piece could not be cut.
    Extraction,
    /// The pieces could not be joined.
    Concatenation,
    /// The stream ended and no span was kept: there is nothing to join.
    NothingToKeep,
    /// The stream has more lines than can be counted.
    TooManyLines,
    /// An event came that the phase of the run does not wait for.
    OutOfTurn,
}

/// Where a run stands.
#[derive(Clone, Copy, Debug, PartialEq, Eq, Structural)]
pub enum Phase {
    /// Nothing has been done yet; the output path is being checked.
    Init,
    /// The workspace is being prepared and the detector started.
    Preparing,
    /// The next line of the diagnostic stream is being read.
    Scanning,
    /// A piece is being cut.
    Extracting,
    /// The pieces are being joined.
    Concatenating,
    /// Joining has failed with this exit code, and what it left at the output
    /// path is being removed.
    Discarding { code: i32 },
    /// The run has ended well.
    Done,
    /// The run has failed, for this cause and with this exit code.
    Failed { cause: Failure, code: i32 },
}

/// What the driver asks for next.
#[derive(Clone, Copy, Debug, PartialEq, Eq, Structural)]
pub enum Action {
    /// Create the workspace and the manifest, resolve the input path and
    /// start the detector.
    Prepare,
    /// Read the next line of the diagnostic stream; at its end, wait for the
    /// detector.
    ReadLine,
    /// List the piece with this number in the manifest, and cut it.
    Extract { interval: KeepInterval, piece: u64 },
    /// Close the manifest and join the pieces into the output.
    Concatenate,
    /// Remove whatever stands at the output path: a run that fails leaves no
    /// output behind.
    Discard,
    /// End the run with this exit code.
    Exit { code: i32 },
}

/// What came of the last action.
#[derive(Clone, Debug, PartialEq, Eq)]
pub enum Event {
    /// The output path was looked up.
    OutputChecked { exists: bool },
    /// The diagnostic stream gave this line.
    Line(String),
    /// The action was done; for [`Action::ReadLine`], the stream has ended and
    /// the detector with it.
    Succeeded,
    /// The action failed, with this code of the system or of the engine where
    /// there was one.
    Failed { code: Option<i32> },
}

/// What an [`Event`] says.
pub enum EventChars {
    /// The output path was looked up.
    OutputChecked { exists: bool },
    /// The diagnostic stream gave this line.
    Line(Seq<char>),
    /// The action was done.
    Succeeded,
    /// The action failed.
    Failed { code: Option<i32> },
}

impl View for Event {
    type V = EventChars;

    open spec fn view(&self) -> EventChars {
        match self {
            Event::OutputChecked { exists } => EventChars::OutputChecked { exists: *exists },
            Event::Line(text) => EventChars::Line(text@),
            Event::Succeeded => EventChars::Succeeded,
            Event::Failed { code } => EventChars::Failed { code: *code },
        }
    }
}

/// What a driver knows of its run.
pub struct Snapshot {
    /// Where the run stands.
    pub phase: Phase,
    /// Where the last silence ended, in microseconds.
    pub last_end: int,
    /// How many lines of the stream have been read.
    pub lines: nat,
    /// How many pieces have been asked for.
    pub pieces: nat,
}

impl Snapshot {
    /// A run of which nothing has been done yet.
    pub open spec fn initial() -> Snapshot {
        Snapshot { phase: Phase::Init, last_end: 0, lines: 0, pieces: 0 }
    }

    /// The same run in the phase `phase`.
    pub open spec fn in_phase(self, phase: Phase) -> Snapshot {
        Snapshot { phase, last_end: self.last_end, lines: self.lines, pieces: self.pieces }
    }

    /// Whether the run has ended, well or not.
    pub open spec fn ended(self) -> bool {
        self.phase is Done || self.phase is Failed
    }
}

/// The exit code of a run that failed with `code`: the code itself, or 1
/// where there is none.
pub open spec fn failure_code(code: Option<i32>) -> i32 {
    match code {
        Some(c) => c,
        None => 1,
    }
}

/// The run `s` failing for `cause` with the exit code `code`.
pub open spec fn failing(s: Snapshot, cause: Failure, code: i32) -> (Snapshot, Action) {
    (s.in_phase(Phase::Failed { cause, code }), Action::Exit { code })
}

/// The run `s` going on to `phase`, which waits for `action`.
pub open spec fn moving(s: Snapshot, phase: Phase, action: Action) -> (Snapshot, Action) {
    (s.in_phase(phase), action)
}

/// What the line `line` makes of a run that is scanning: the cursor moves as
/// the extractor says, and a span that the line closes is cut at once, as
/// the piece that bears the number of the line.
pub open spec fn on_line(s: Snapshot, line: Seq<char>) -> (Snapshot, Action) {
    if s.lines >= u64::MAX {
        failing(s, Failure::TooManyLines, 1)
    } else {
        let marker = classify(line);
        let last_end = end_after(s.last_end, marker);
        match kept_at(s.last_end, marker) {
            Some(interval) => (
                Snapshot {
                    phase: Phase::Extracting,
                    last_end,
                    lines: s.lines + 1,
                    pieces: s.pieces + 1,
                },
                Action::Extract { interval, piece: s.lines as u64 },
            ),
            None => (
                Snapshot { phase: Phase::Scanning, last_end, lines: s.lines + 1, pieces: s.pieces },
                Action::ReadLine,
            ),
        }
    }
}

/// What the event `e` makes of the run `s`: the run after it, and what the
/// driver asks for next.
pub open spec fn transition(s: Snapshot, e: EventChars) -> (Snapshot, Action) {
    match s.phase {
        Phase::Init => match e {
            EventChars::OutputChecked { exists } => if exists {
                failing(s, Failure::OutputExists, 1)
            } else {
                moving(s, Phase::Preparing, Action::Prepare)
            },
            _ => failing(s, Failure::OutOfTurn, 1),
        },
        Phase::Preparing => match e {
            EventChars::Succeeded => moving(s, Phase::Scanning, Action::ReadLine),
            EventChars::Failed { code } => failing(s, Failure::Setup, failure_code(code)),
            _ => failing(s, Failure::OutOfTurn, 1),
        },
        Phase::Scanning => match e {
            EventChars::Line(line) => on_line(s, line),
            EventChars::Succeeded => if s.pieces == 0 {
                failing(s, Failure::NothingToKeep, 1)
            } else {
                moving(s, Phase::Concatenating, Action::Concatenate)
            },
            EventChars::Failed { code } => failing(s, Failure::Detection, failure_code(code)),
            _ => failing(s, Failure::OutOfTurn, 1),
        },
        Phase::Extracting => match e {
            EventChars::Succeeded => moving(s, Phase::Scanning, Action::ReadLine),
            EventChars::Failed { code } => failing(s, Failure::Extraction, failure_code(code)),
            _ => failing(s, Failure::OutOfTurn, 1),
        },
        Phase::Concatenating => match e {
            EventChars::Succeeded => moving(s, Phase::Done, Action::Exit { code: 0 }),
            EventChars::Failed { code } => moving(
                s,
                Phase::Discarding { code: failure_code(code) },
                Action::Discard,
            ),
            _ => failing(s, Failure::OutOfTurn, 1),
        },
        Phase::Discarding { code } => match e {
            EventChars::Succeeded => failing(s, Failure::Concatenation, code),
            EventChars::Failed { code: _ } => failing(s, Failure::Concatenation, code),
            _ => failing(s, Failure::OutOfTurn, 1),
        },
        Phase::Done => (s, Action::Exit { code: 0 }),
        Phase::Failed { cause, code } => (s, Action::Exit { code }),
    }
}

/// The exit code of a run that failed with `code`.
pub fn exit_code(code: Option<i32>) -> (exit: i32)
    ensures
        exit == failure_code(code),
{
    match code {
        Some(c) => c,
        None => 1,
    }
}

/// The driver of one run.
pub struct Driver {
    phase: Phase,
    scan: ScanState,
    lines: u64,
    pieces: u64,
}

impl View for Driver {
    type V = Snapshot;

    closed spec fn view(&self) -> Snapshot {
        Snapshot {
            phase: self.phase,
            last_end: self.scan.last_end(),
            lines: self.lines as nat,
            pieces: self.pieces as nat,
        }
    }
}

impl Driver {
    /// No more pieces have been asked for than lines have been read.
    #[verifier::type_invariant]
    spec fn counted(self) -> bool {
        self.pieces <= self.lines
    }

    /// The driver of a run of which nothing has been done yet. The run
    /// begins by looking up the output path: the first event is
    /// [`Event::OutputChecked`].
    pub fn new() -> (d: Self)
        ensures
            d@ == Snapshot::initial(),
    {
        Driver { phase: Phase::Init, scan: ScanState::new(), lines: 0, pieces: 0 }
    }

    /// Where the run stands.
    pub fn phase(&self) -> (p: Phase)
        ensures
            p == self@.phase,
    {
        self.phase
    }

    /// How many pieces have been asked for.
    pub fn pieces(&self) -> (n: u64)
        ensures
            n == self@.pieces,
    {
        self.pieces
    }

    /// How many lines of the stream have been read.
    pub fn lines(&self) -> (n: u64)
        ensures
            n == self@.lines,
    {
        self.lines
    }

    /// Ends the run for `cause` with the exit code `code`.
    fn fail(&mut self, cause: Failure, code: i32) -> (action: Action)
        ensures
            (final(self)@, action) == failing(old(self)@, cause, code),
    {
        proof {
            use_type_invariant(&*self);
        }
        self.phase = Phase::Failed { cause, code };
        Action::Exit { code }
    }

    /// Goes on to `phase`, which waits for `action`.
    fn move_to(&mut self, phase: Phase, action: Action) -> (next: Action)
        ensures
            (final(self)@, next) == moving(old(self)@, phase, action),
    {
        proof {
            use_type_invariant(&*self);
        }
        self.phase = phase;
        action
    }

    /// Takes in one line of the stream while scanning.
    fn take_line(&mut self, line: &str) -> (action: Action)
        ensures
            (final(self)@, action) == on_line(old(self)@, line@),
    {
        proof {
            use_type_invariant(&*self);
        }
        if self.lines == u64::MAX {
            return self.fail(Failure::TooManyLines, 1);
        }
        let piece: u64 = self.lines;
        let mut scan: ScanState = self.scan;
        let kept = scan.feed(line);
        self.scan = scan;
        self.lines = piece + 1;
        match kept {
            Some(interval) => {
                self.pieces = self.pieces + 1;
                self.phase = Phase::Extracting;
                Action::Extract { interval, piece }
            },
            None => {
                self.phase = Phase::Scanning;
                Action::ReadLine
            },
        }
    }

    /// Takes in what came of the last action, and returns the next one.
    pub fn step(&mut self, event: &Event) -> (action: Action)
        ensures
            (final(self)@, action) == transition(old(self)@, event@),
    {
        match self.phase {
            Phase::Init => match event {
                Event::OutputChecked { exists } => if *exists {
                    self.fail(Failure::OutputExists, 1)
                } else {
                    self.move_to(Phase::Preparing, Action::Prepare)
                },
                _ => self.fail(Failure::OutOfTurn, 1),
            },
            Phase::Preparing => match event {
                Event::Succeeded => self.move_to(Phase::Scanning, Action::ReadLine),
                Event::Failed { code } => self.fail(Failure::Setup, exit_code(*code)),
                _ => self.fail(Failure::OutOfTurn, 1),
            },
            Phase::Scanning => match event {
                Event::Line(line) => self.take_line(line.as_str()),
                Event::Succeeded => if self.pieces == 0 {
                    self.fail(Failure::NothingToKeep, 1)
                } else {
                    self.move_to(Phase::Concatenating, Action::Concatenate)
                },
                Event::Failed { code } => self.fail(Failure::Detection, exit_code(*code)),
                _ => self.fail(Failure::OutOfTurn, 1),
            },
            Phase::Extracting => match event {
                Event::Succeeded => self.move_to(Phase::Scanning, Action::ReadLine),
                Event::Failed { code } => self.fail(Failure::Extraction, exit_code(*code)),
                _ => self.fail(Failure::OutOfTurn, 1),
            },
            Phase::Concatenating => match event {
                Event::Succeeded => self.move_to(Phase::Done, Action::Exit { code: 0 }),
                Event::Failed { code } => self.move_to(
                    Phase::Discarding { code: exit_code(*code) },
                    Action::Discard,
                ),
                _ => self.fail(Failure::OutOfTurn, 1),
            },
            Phase::Discarding { code } => match event {
                Event::Succeeded => self.fail(Failure::Concatenation, code),
                Event::Failed { code: _ } => self.fail(Failure::Concatenation, code),
                _ => self.fail(Failure::OutOfTurn, 1),
            },
            Phase::Done => Action::Exit { code: 0 },
            Phase::Failed { cause, code } => Action::Exit { code },
        }
    }
}

/// The run `s` after all of `events`.
pub open spec fn after(s: Snapshot, events: Seq<EventChars>) -> Snapshot
    decreases events.len(),
{
    if events.len() == 0 {
        s
    } else {
        after(transition(s, events[0]).0, events.drop_first())
    }
}

/// What the driver asks for over the run `s`, one action for each of `events`.
pub open spec fn actions(s: Snapshot, events: Seq<EventChars>) -> Seq<Action>
    decreases events.len(),
{
    if events.len() == 0 {
        Seq::empty()
    } else {
        seq![transition(s, events[0]).1] + actions(
            transition(s, events[0]).0,
            events.drop_first(),
        )
    }
}

/// The spans that `actions` ask to cut, in their order.
pub open spec fn cut_spans(actions: Seq<Action>) -> Seq<KeepInterval>
    decreases actions.len(),
{
    if actions.len() == 0 {
        Seq::empty()
    } else {
        match actions.last() {
            Action::Extract { interval, piece } => cut_spans(actions.drop_last()).push(interval),
            _ => cut_spans(actions.drop_last()),
        }
    }
}

/// The numbers of the pieces that `actions` ask to cut, in their order.
pub open spec fn cut_pieces(actions: Seq<Action>) -> Seq<u64>
    decreases actions.len(),
{
    if actions.len() == 0 {
        Seq::empty()
    } else {
        match actions.last() {
            Action::Extract { interval, piece } => cut_pieces(actions.drop_last()).push(piece),
            _ => cut_pieces(actions.drop_last()),
        }
    }
}

/// The events of a scan over `lines` in which every piece is cut well: each
/// line in its turn, and after a line that closes a span the success of
/// cutting it.
pub open spec fn scan_events(s: Snapshot, lines: Seq<Seq<char>>) -> Seq<EventChars>
    decreases lines.len(),
{
    if lines.len() == 0 {
        Seq::empty()
    } else {
        let line = EventChars::Line(lines[0]);
        let next = transition(s, line).0;
        if next.phase is Extracting {
            seq![line, EventChars::Succeeded] + scan_events(
                transition(next, EventChars::Succeeded).0,
                lines.drop_first(),
            )
        } else {
            seq![line] + scan_events(next, lines.drop_first())
        }
    }
}

/// A run can be cut anywhere: the events `a` followed by `b` lead where `b`
/// leads from where `a` has led, and ask for what `a` asks for, then for
/// what `b` asks for from there.
pub proof fn lemma_run_concat(s: Snapshot, a: Seq<EventChars>, b: Seq<EventChars>)
    ensures
        after(s, a + b) == after(after(s, a), b),
        actions(s, a + b) == actions(s, a) + actions(after(s, a), b),
    decreases a.len(),
{
    if a.len() == 0 {
        assert(a + b =~= b);
        assert(actions(s, a) + actions(s, b) =~= actions(s, b));
    } else {
        let next = transition(s, a[0]).0;
        lemma_run_concat(next, a.drop_first(), b);
        assert((a + b).drop_first() =~= a.drop_first() + b);
        assert((a + b)[0] == a[0]);
        assert(seq![transition(s, a[0]).1] + (actions(next, a.drop_first()) + actions(
            after(next, a.drop_first()),
            b,
        )) =~= (seq![transition(s, a[0]).1] + actions(next, a.drop_first())) + actions(
            after(next, a.drop_first()),
            b,
        ));
    }
}

/// What actions ask to cut can be told part by part.
pub proof fn lemma_cut_concat(a: Seq<Action>, b: Seq<Action>)
    ensures
        cut_spans(a + b) == cut_spans(a) + cut_spans(b),
        cut_pieces(a + b) == cut_pieces(a) + cut_pieces(b),
    decreases b.len(),
{
    if b.len() == 0 {
        assert(a + b =~= a);
        assert(cut_spans(a) + cut_spans(b) =~= cut_spans(a));
        assert(cut_pieces(a) + cut_pieces(b) =~= cut_pieces(a));
    } else {
        lemma_cut_concat(a, b.drop_last());
        assert((a + b).drop_last() =~= a + b.drop_last());
        assert((a + b).last() == b.last());
        match b.last() {
            Action::Extract { interval, piece } => {
                assert((cut_spans(a) + cut_spans(b.drop_last())).push(interval) =~= cut_spans(a)
                    + cut_spans(b.drop_last()).push(interval));
                assert((cut_pieces(a) + cut_pieces(b.drop_last())).push(piece) =~= cut_pieces(a)
                    + cut_pieces(b.drop_last()).push(piece));
            },
            _ => {},
        }
    }
}

/// A run that has ended stays as it is, whatever comes: the driver only
/// repeats the exit code. Nothing is tried again.
pub proof fn law_ended_runs_stay_ended(s: Snapshot, events: Seq<EventChars>)
    requires
        s.ended(),
    ensures
        after(s, events) == s,
        forall|i: int|
            0 <= i < events.len() ==> #[trigger] actions(s, events)[i] == (Action::Exit {
                code: match s.phase {
                    Phase::Failed { cause, code } => code,
                    _ => 0,
                },
            }),
        actions(s, events).len() == events.len(),
    decreases events.len(),
{
    if events.len() > 0 {
        law_ended_runs_stay_ended(s, events.drop_first());
        let rest = actions(s, events.drop_first());
        assert forall|i: int| 0 <= i < events.len() implies #[trigger] actions(s, events)[i] == (
        Action::Exit {
            code: match s.phase {
                Phase::Failed { cause, code } => code,
                _ => 0,
            },
        }) by {
            if i > 0 {
                assert(actions(s, events)[i] == rest[i - 1]);
            }
        }
    }
}

/// A run whose output path is taken ends at once with the exit code 1:
/// whatever comes after, the driver asks for nothing but to exit, so no
/// workspace is ever prepared.
pub proof fn law_existing_output_fails_first(rest: Seq<EventChars>)
    ensures
        ({
            let events = seq![EventChars::OutputChecked { exists: true }] + rest;
            let asked = actions(Snapshot::initial(), events);
            &&& asked.len() == events.len()
            &&& forall|i: int| 0 <= i < asked.len() ==> #[trigger] asked[i] == (Action::Exit { code: 1 })
            &&& after(Snapshot::initial(), events).phase == (Phase::Failed {
                cause: Failure::OutputExists,
                code: 1,
            })
        }),
{
    let first = seq![EventChars::OutputChecked { exists: true }];
    let events = first + rest;
    let start = Snapshot::initial();
    let failed = transition(start, first[0]).0;
    assert(first.drop_first() =~= Seq::<EventChars>::empty());
    assert(after(start, first) == failed) by {
        reveal_with_fuel(after, 2);
    }
    assert(actions(start, first) =~= seq![Action::Exit { code: 1 }]) by {
        reveal_with_fuel(actions, 2);
    }
    lemma_run_concat(start, first, rest);
    law_ended_runs_stay_ended(failed, rest);
    let asked = actions(start, events);
    assert forall|i: int| 0 <= i < asked.len() implies #[trigger] asked[i] == (Action::Exit {
        code: 1,
    }) by {
        if i > 0 {
            assert(asked[i] == actions(failed, rest)[i - 1]);
        }
    }
}

/// Over a scan in which every piece is cut well, the driver asks to cut
/// exactly the spans that the extractor keeps over the lines, in their order,
/// and stands ready for the next line when the lines are through.
pub proof fn law_driver_cuts_what_is_kept(s: Snapshot, lines: Seq<Seq<char>>)
    requires
        s.phase is Scanning,
        s.lines + lines.len() <= u64::MAX,
    ensures
        ({
            let events = scan_events(s, lines);
            let kept = scan(s.last_end, markers_of(lines));
            &&& cut_spans(actions(s, events)) == kept
            &&& after(s, events) == (Snapshot {
                phase: Phase::Scanning,
                last_end: end_after_all(s.last_end, markers_of(lines)),
                lines: s.lines + lines.len(),
                pieces: s.pieces + kept.len(),
            })
        }),
    decreases lines.len(),
{
    let markers = markers_of(lines);
    if lines.len() > 0 {
        let line = EventChars::Line(lines[0]);
        let (next, asked) = transition(s, line);
        let rest = lines.drop_first();
        assert(markers[0] == classify(lines[0]));
        assert(markers.drop_first() =~= markers_of(rest));
        let ready = if next.phase is Extracting {
            transition(next, EventChars::Succeeded).0
        } else {
            next
        };
        let head = if next.phase is Extracting {
            seq![line, EventChars::Succeeded]
        } else {
            seq![line]
        };
        law_driver_cuts_what_is_kept(ready, rest);
        lemma_run_concat(s, head, scan_events(ready, rest));
        if next.phase is Extracting {
            assert(head.drop_first() =~= seq![EventChars::Succeeded]);
            assert(head.drop_first().drop_first() =~= Seq::<EventChars>::empty());
        } else {
            assert(head.drop_first() =~= Seq::<EventChars>::empty());
        }
        assert(after(s, head) == ready) by {
            reveal_with_fuel(after, 3);
        }
        let first_actions = actions(s, head);
        assert(first_actions =~= if next.phase is Extracting {
            seq![asked, Action::ReadLine]
        } else {
            seq![asked]
        }) by {
            reveal_with_fuel(actions, 3);
        }
        lemma_cut_concat(first_actions, actions(ready, scan_events(ready, rest)));
        assert(cut_spans(first_actions) =~= match kept_at(s.last_end, markers[0]) {
            Some(k) => seq![k],
            None => Seq::<KeepInterval>::empty(),
        }) by {
            reveal_with_fuel(cut_spans, 3);
            if next.phase is Extracting {
                assert(first_actions.drop_last() =~= seq![asked]);
                assert(first_actions.drop_last().drop_last() =~= Seq::<Action>::empty());
            } else {
                assert(first_actions.drop_last() =~= Seq::<Action>::empty());
            }
        }
        let kept_rest = scan(end_after(s.last_end, markers[0]), markers_of(rest));
        assert(Seq::<KeepInterval>::empty() + kept_rest =~= kept_rest);
    } else {
        assert(scan_events(s, lines) =~= Seq::<EventChars>::empty());
    }
}

/// A run whose stream ends without any span kept ends with the exit code 1
/// and the cause [`Failure::NothingToKeep`]: no piece is ever asked for, so
/// the manifest is left with no entry, and the driver does not ask to join.
pub proof fn law_nothing_kept_ends_the_run(s: Snapshot, lines: Seq<Seq<char>>)
    requires
        s.phase is Scanning,
        s.pieces == 0,
        s.lines + lines.len() <= u64::MAX,
        scan(s.last_end, markers_of(lines)) == Seq::<KeepInterval>::empty(),
    ensures
        ({
            let events = scan_events(s, lines) + seq![EventChars::Succeeded];
            let asked = actions(s, events);
            &&& asked.len() == lines.len() + 1
            &&& forall|i: int| 0 <= i < lines.len() ==> #[trigger] asked[i] == Action::ReadLine
            &&& asked[lines.len() as int] == (Action::Exit { code: 1 })
            &&& cut_pieces(asked) == Seq::<u64>::empty()
            &&& after(s, events).phase == (Phase::Failed { cause: Failure::NothingToKeep, code: 1 })
        }),
{
    let scanned = scan_events(s, lines);
    let end = seq![EventChars::Succeeded];
    law_driver_cuts_what_is_kept(s, lines);
    lemma_cut_counts(actions(s, scanned));
    lemma_cut_concat(actions(s, scanned), seq![Action::Exit { code: 1 }]);
    assert(cut_pieces(seq![Action::Exit { code: 1 }]) =~= Seq::<u64>::empty()) by {
        reveal_with_fuel(cut_pieces, 2);
        assert(seq![Action::Exit { code: 1 }].drop_last() =~= Seq::<Action>::empty());
    }
    assert(cut_pieces(actions(s, scanned)) =~= Seq::<u64>::empty());
    lemma_idle_scan(s, lines);
    lemma_run_concat(s, scanned, end);
    let ready = after(s, scanned);
    assert(end.drop_first() =~= Seq::<EventChars>::empty());
    assert(actions(ready, end) =~= seq![Action::Exit { code: 1 }]) by {
        reveal_with_fuel(actions, 2);
    }
    assert(after(ready, end) == transition(ready, EventChars::Succeeded).0) by {
        reveal_with_fuel(after, 2);
    }
}

/// Over lines that close no span, the driver only asks for the next line.
proof fn lemma_idle_scan(s: Snapshot, lines: Seq<Seq<char>>)
    requires
        s.phase is Scanning,
        s.lines + lines.len() <= u64::MAX,
        scan(s.last_end, markers_of(lines)) == Seq::<KeepInterval>::empty(),
    ensures
        scan_events(s, lines).len() == lines.len(),
        actions(s, scan_events(s, lines)).len() == lines.len(),
        forall|i: int|
            0 <= i < lines.len() ==> #[trigger] actions(s, scan_events(s, lines))[i]
                == Action::ReadLine,
    decreases lines.len(),
{
    if lines.len() > 0 {
        let markers = markers_of(lines);
        let rest = lines.drop_first();
        let line = EventChars::Line(lines[0]);
        let next = transition(s, line).0;
        assert(markers[0] == classify(lines[0]));
        assert(markers.drop_first() =~= markers_of(rest));
        match kept_at(s.last_end, markers[0]) {
            Some(k) => {
                let tail = scan(end_after(s.last_end, markers[0]), markers.drop_first());
                assert((seq![k] + tail).len() > 0);
            },
            None => {},
        }
        assert(kept_at(s.last_end, markers[0]) is None);
        lemma_idle_scan(next, rest);
        let events = scan_events(s, lines);
        assert(events =~= seq![line] + scan_events(next, rest));
        assert(events.drop_first() =~= scan_events(next, rest));
        let asked = actions(s, events);
        assert forall|i: int| 0 <= i < lines.len() implies #[trigger] asked[i]
            == Action::ReadLine by {
            if i > 0 {
                assert(asked[i] == actions(next, scan_events(next, rest))[i - 1]);
            }
        }
    } else {
        assert(scan_events(s, lines) =~= Seq::<EventChars>::empty());
    }
}

/// Whatever the events, every piece that the driver asks for bears a number
/// that no piece before it in the run bore: the numbers grow strictly.
pub proof fn law_piece_numbers_grow(s: Snapshot, events: Seq<EventChars>)
    ensures
        ({
            let pieces = cut_pieces(actions(s, events));
            &&& forall|i: int| 0 <= i < pieces.len() ==> s.lines <= #[trigger] pieces[i]
            &&& forall|i: int, j: int| 0 <= i < j < pieces.len() ==> pieces[i] < pieces[j]
            &&& after(s, events).lines >= s.lines
            &&& forall|i: int| 0 <= i < pieces.len() ==> #[trigger] pieces[i] < after(s, events).lines
        }),
    decreases events.len(),
{
    if events.len() > 0 {
        let (next, asked) = transition(s, events[0]);
        let rest = events.drop_first();
        law_piece_numbers_grow(next, rest);
        let head = seq![asked];
        let tail = actions(next, rest);
        lemma_cut_concat(head, tail);
        assert(head.drop_last() =~= Seq::<Action>::empty());
        let first = cut_pieces(head);
        assert(first =~= match asked {
            Action::Extract { interval, piece } => seq![piece],
            _ => Seq::<u64>::empty(),
        }) by {
            reveal_with_fuel(cut_pieces, 2);
        }
        let pieces = cut_pieces(actions(s, events));
        let later = cut_pieces(tail);
        assert(pieces == first + later);
        assert(next.lines >= s.lines);
        match asked {
            Action::Extract { interval, piece } => {
                assert(piece == s.lines);
                assert(next.lines == s.lines + 1);
                assert forall|i: int, j: int| 0 <= i < j < pieces.len() implies pieces[i]
                    < pieces[j] by {
                    assert(pieces[j] == later[j - 1]);
                    if i > 0 {
                        assert(pieces[i] == later[i - 1]);
                    }
                }
                assert forall|i: int| 0 <= i < pieces.len() implies s.lines <= #[trigger] pieces[i]
                    && pieces[i] < after(s, events).lines by {
                    if i > 0 {
                        assert(pieces[i] == later[i - 1]);
                    }
                }
            },
            _ => {
                assert(pieces =~= later);
            },
        }
    } else {
        assert(cut_pieces(actions(s, events)) =~= Seq::<u64>::empty());
    }
}

/// Actions ask to cut as many pieces as spans.
pub proof fn lemma_cut_counts(actions: Seq<Action>)
    ensures
        cut_pieces(actions).len() == cut_spans(actions).len(),
    decreases actions.len(),
{
    if actions.len() > 0 {
        lemma_cut_counts(actions.drop_last());
    }
}

/// A run ends well only by joining: the one step that leads there is the
/// success of joining. And the driver asks to join only when at least one
/// piece has been cut, each of them well.
pub proof fn law_done_only_after_joining(s: Snapshot, e: EventChars)
    ensures
        transition(s, e).0.phase is Done ==> s.phase is Done || (s.phase is Concatenating && e
            is Succeeded),
        transition(s, e).1 is Concatenate ==> s.phase is Scanning && e is Succeeded && s.pieces
            > 0,
        transition(s, e).1 is Extract ==> s.phase is Scanning && e is Line,
        transition(s, e).1 is Prepare ==> s.phase is Init && e == (EventChars::OutputChecked {
            exists: false,
        }),
{
}

/// Where joining fails, the driver asks to remove what stands at the output
/// path, and then ends the run with the exit code of the failure, whether
/// or not the removal went well.
pub proof fn law_failed_join_leaves_no_output(s: Snapshot, code: Option<i32>, removed: bool)
    requires
        s.phase is Concatenating,
    ensures
        ({
            let events = seq![
                EventChars::Failed { code },
                if removed {
                    EventChars::Succeeded
                } else {
                    EventChars::Failed { code: None }
                },
            ];
            &&& actions(s, events) == seq![
                Action::Discard,
                Action::Exit { code: failure_code(code) },
            ]
            &&& after(s, events).phase == (Phase::Failed {
                cause: Failure::Concatenation,
                code: failure_code(code),
            })
        }),
{
    let second = if removed {
        EventChars::Succeeded
    } else {
        EventChars::Failed { code: None }
    };
    let events = seq![EventChars::Failed { code }, second];
    assert(events.drop_first() =~= seq![second]);
    assert(events.drop_first().drop_first() =~= Seq::<EventChars>::empty());
    assert(actions(s, events) =~= seq![Action::Discard, Action::Exit { code: failure_code(code) }])
        by {
        reveal_with_fuel(actions, 3);
    }
    assert(after(s, events).phase == (Phase::Failed {
        cause: Failure::Concatenation,
        code: failure_code(code),
    })) by {
        reveal_with_fuel(after, 3);
    }
}

} // verus!
