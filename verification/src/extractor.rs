//! The keep-interval extractor: from the markers of the diagnostic stream to
//! the spans of the recording that are kept.

use vstd::prelude::*;
use crate::marker::{classify, classify_line, end_keyword, keyword_value, start_keyword, Marker};
use crate::text::contains;
use crate::timestamp::MAX_MICROS;

verus! {

/// A gap between the end of one silence and the start of the next is kept
/// only where it is longer than this, in microseconds: a hundredth of a second.
pub const MIN_GAP_MICROS: i64 = 10_000;

/// A span of the recording that is kept, in microseconds.
#[derive(Clone, Copy, Debug, PartialEq, Eq, Structural)]
pub struct KeepInterval {
    /// Where the span begins.
    pub start: i64,
    /// How long it lasts.
    pub duration: i64,
}

impl KeepInterval {
    /// Where the span ends.
    pub open spec fn end(self) -> int {
        self.start + self.duration
    }

    /// Whether the span lies in the recording and runs forward: it begins at
    /// or after the recording's start and lasts some time.
    pub open spec fn is_forward(self) -> bool {
        self.start >= 0 && self.duration > 0
    }
}

/// Whether a gap of `gap` microseconds is long enough to keep.
pub open spec fn worth_keeping(gap: int) -> bool {
    gap > MIN_GAP_MICROS || gap < -MIN_GAP_MICROS
}

/// Where the last silence ended, once `marker` has been seen after a silence
/// that ended at `last_end`.
pub open spec fn end_after(last_end: int, marker: Marker) -> int {
    match marker {
        Marker::SilenceEnd(t) => t as int,
        _ => last_end,
    }
}

/// The span that `marker` closes, seen after a silence that ended at
/// `last_end`: the start of a new silence closes the span since the last one,
/// if that span is worth keeping.
pub open spec fn kept_at(last_end: int, marker: Marker) -> Option<KeepInterval> {
    match marker {
        Marker::SilenceStart(t) => if worth_keeping(t - last_end) {
            Some(KeepInterval { start: last_end as i64, duration: (t - last_end) as i64 })
        } else {
            None
        },
        _ => None,
    }
}

/// The spans kept over the whole of `markers`, in the order in which they are
/// found, when the last silence before them ended at `last_end`.
pub open spec fn scan(last_end: int, markers: Seq<Marker>) -> Seq<KeepInterval>
    decreases markers.len(),
{
    if markers.len() == 0 {
        Seq::empty()
    } else {
        let rest = scan(end_after(last_end, markers[0]), markers.drop_first());
        match kept_at(last_end, markers[0]) {
            Some(k) => seq![k] + rest,
            None => rest,
        }
    }
}

/// Where the last silence ended once all of `markers` have been seen.
pub open spec fn end_after_all(last_end: int, markers: Seq<Marker>) -> int
    decreases markers.len(),
{
    if markers.len() == 0 {
        last_end
    } else {
        end_after_all(end_after(last_end, markers[0]), markers.drop_first())
    }
}

/// What each of `lines` reports.
pub open spec fn markers_of(lines: Seq<Seq<char>>) -> Seq<Marker> {
    Seq::new(lines.len(), |i: int| classify(lines[i]))
}

/// The text of each of `lines`.
pub open spec fn texts_of(lines: Seq<String>) -> Seq<Seq<char>> {
    Seq::new(lines.len(), |i: int| lines[i]@)
}

/// The cursor of a scan: where the last silence ended. A scan begins at the
/// recording's start, as if a silence had ended there.
#[derive(Clone, Copy, Debug)]
pub struct ScanState {
    last_silence_end: i64,
}

impl ScanState {
    /// The cursor never leaves the range of timestamps.
    #[verifier::type_invariant]
    spec fn in_range(self) -> bool {
        -MAX_MICROS <= self.last_silence_end <= MAX_MICROS
    }

    /// Where the last silence ended, in microseconds.
    pub closed spec fn last_end(self) -> int {
        self.last_silence_end as int
    }

    /// The cursor at the recording's start.
    pub fn new() -> (s: Self)
        ensures
            s.last_end() == 0,
    {
        ScanState { last_silence_end: 0 }
    }

    /// Where the last silence ended, in microseconds.
    pub fn last_silence_end(&self) -> (t: i64)
        ensures
            t == self.last_end(),
            -MAX_MICROS <= t <= MAX_MICROS,
    {
        proof {
            use_type_invariant(self);
        }
        self.last_silence_end
    }

    /// Takes in one marker, and returns the span that it closes, if any.
    pub fn observe(&mut self, marker: Marker) -> (kept: Option<KeepInterval>)
        requires
            marker.in_range(),
        ensures
            final(self).last_end() == end_after(old(self).last_end(), marker),
            kept == kept_at(old(self).last_end(), marker),
    {
        proof {
            use_type_invariant(&*self);
        }
        match marker {
            Marker::SilenceEnd(t) => {
                self.last_silence_end = t;
                None
            },
            Marker::SilenceStart(t) => {
                let gap: i64 = t - self.last_silence_end;
                if gap > MIN_GAP_MICROS || gap < -MIN_GAP_MICROS {
                    Some(KeepInterval { start: self.last_silence_end, duration: gap })
                } else {
                    None
                }
            },
            Marker::Other => None,
        }
    }

    /// Takes in one line of the diagnostic stream, and returns the span that
    /// it closes, if any.
    pub fn feed(&mut self, line: &str) -> (kept: Option<KeepInterval>)
        ensures
            final(self).last_end() == end_after(old(self).last_end(), classify(line@)),
            kept == kept_at(old(self).last_end(), classify(line@)),
    {
        let marker = classify_line(line);
        self.observe(marker)
    }
}

/// The spans kept over the whole of `lines`, in the order in which they are
/// found, for a scan that begins at the recording's start.
pub fn extract(lines: &Vec<String>) -> (kept: Vec<KeepInterval>)
    ensures
        kept@ == scan(0, markers_of(texts_of(lines@))),
{
    let ghost markers = markers_of(texts_of(lines@));
    let mut state = ScanState::new();
    let mut kept: Vec<KeepInterval> = Vec::new();
    let mut i: usize = 0;
    proof {
        assert(markers.skip(0) =~= markers);
        assert(kept@ + scan(0, markers) =~= scan(0, markers));
    }
    while i < lines.len()
        invariant
            i <= lines.len(),
            markers == markers_of(texts_of(lines@)),
            kept@ + scan(state.last_end(), markers.skip(i as int)) == scan(0, markers),
        decreases lines.len() - i,
    {
        proof {
            let rest = markers.skip(i as int);
            assert(rest[0] == classify(lines@[i as int]@));
            assert(rest.drop_first() =~= markers.skip(i + 1));
        }
        let ghost before = kept@;
        let ghost tail = scan(
            end_after(state.last_end(), markers[i as int]),
            markers.skip(i + 1),
        );
        match state.feed(lines[i].as_str()) {
            Some(k) => {
                kept.push(k);
                assert(before.push(k) + tail =~= before + (seq![k] + tail));
            },
            None => {},
        }
        i += 1;
    }
    assert(markers.skip(i as int) =~= Seq::<Marker>::empty());
    assert(kept@ + Seq::<KeepInterval>::empty() =~= kept@);
    kept
}

/// A scan can be cut anywhere: what is kept over `a` followed by `b` is what
/// is kept over `a`, then what is kept over `b` by a scan that goes on from
/// where `a` left the cursor.
pub proof fn lemma_scan_concat(last_end: int, a: Seq<Marker>, b: Seq<Marker>)
    ensures
        scan(last_end, a + b) == scan(last_end, a) + scan(end_after_all(last_end, a), b),
        end_after_all(last_end, a + b) == end_after_all(end_after_all(last_end, a), b),
    decreases a.len(),
{
    if a.len() == 0 {
        assert(a + b =~= b);
        assert(scan(last_end, a) + scan(last_end, b) =~= scan(last_end, b));
    } else {
        let next = end_after(last_end, a[0]);
        lemma_scan_concat(next, a.drop_first(), b);
        assert((a + b).drop_first() =~= a.drop_first() + b);
        assert((a + b)[0] == a[0]);
        let tail_a = scan(next, a.drop_first());
        let tail_b = scan(end_after_all(next, a.drop_first()), b);
        match kept_at(last_end, a[0]) {
            Some(k) => {
                assert(seq![k] + (tail_a + tail_b) =~= (seq![k] + tail_a) + tail_b);
            },
            None => {},
        }
    }
}

/// A stream in which no silence starts keeps nothing: the whole recording
/// counts as one span that no marker ever closes.
pub proof fn law_no_silence_start_keeps_nothing(last_end: int, markers: Seq<Marker>)
    requires
        forall|i: int| 0 <= i < markers.len() ==> !(#[trigger] markers[i] is SilenceStart),
    ensures
        scan(last_end, markers) == Seq::<KeepInterval>::empty(),
    decreases markers.len(),
{
    if markers.len() > 0 {
        assert(!(markers[0] is SilenceStart));
        let rest = markers.drop_first();
        assert forall|i: int| 0 <= i < rest.len() implies !(#[trigger] rest[i] is SilenceStart) by {
            assert(rest[i] == markers[i + 1]);
        }
        law_no_silence_start_keeps_nothing(end_after(last_end, markers[0]), rest);
    }
}

/// A stream of lines none of which holds a marker keyword keeps nothing.
pub proof fn law_unmarked_lines_keep_nothing(lines: Seq<Seq<char>>)
    requires
        forall|i: int|
            0 <= i < lines.len() ==> !contains(#[trigger] lines[i], start_keyword()) && !contains(
                lines[i],
                end_keyword(),
            ),
    ensures
        scan(0, markers_of(lines)) == Seq::<KeepInterval>::empty(),
        forall|i: int| 0 <= i < lines.len() ==> classify(#[trigger] lines[i]) == Marker::Other,
{
    let markers = markers_of(lines);
    assert forall|i: int| 0 <= i < markers.len() implies !(#[trigger] markers[i]
        is SilenceStart) by {
        assert(!contains(lines[i], start_keyword()));
    }
    law_no_silence_start_keeps_nothing(0, markers);
}

/// The timestamp that a marker carries; 0 for a line that reports nothing.
pub open spec fn timestamp_of(marker: Marker) -> int {
    match marker {
        Marker::SilenceEnd(t) => t as int,
        Marker::SilenceStart(t) => t as int,
        Marker::Other => 0,
    }
}

/// Whether every one of `markers` reports a silence, and starts and ends
/// take turns.
pub open spec fn alternating(markers: Seq<Marker>) -> bool {
    &&& forall|i: int| 0 <= i < markers.len() ==> !(#[trigger] markers[i] is Other)
    &&& forall|i: int|
        0 <= i < markers.len() - 1 ==> ((#[trigger] markers[i] is SilenceStart) != (markers[i
            + 1] is SilenceStart))
}

/// The timestamp that comes before the marker at `at`: that of the marker
/// before it, or for the first marker the end of the silence before the stream.
pub open spec fn timestamp_before(last_end: int, markers: Seq<Marker>, at: int) -> int {
    if at <= 0 {
        last_end
    } else {
        timestamp_of(markers[at - 1])
    }
}

/// Whether timestamps grow strictly along `markers`, beginning from
/// `last_end` where the first marker is a start.
pub open spec fn increasing(last_end: int, markers: Seq<Marker>) -> bool {
    &&& markers.len() > 0 && markers[0] is SilenceStart ==> last_end < timestamp_of(markers[0])
    &&& forall|i: int|
        0 <= i < markers.len() - 1 ==> timestamp_of(#[trigger] markers[i]) < timestamp_of(
            markers[i + 1],
        )
}

/// Whether every start among `markers` comes more than [`MIN_GAP_MICROS`]
/// after the timestamp before it.
pub open spec fn gaps_worth_keeping(last_end: int, markers: Seq<Marker>) -> bool {
    forall|i: int|
        0 <= i < markers.len() && #[trigger] markers[i] is SilenceStart ==> timestamp_of(
            markers[i],
        ) - timestamp_before(last_end, markers, i) > MIN_GAP_MICROS
}

/// Index of the first start among alternating `markers`.
pub open spec fn first_start(markers: Seq<Marker>) -> int {
    if markers.len() > 0 && markers[0] is SilenceStart {
        0
    } else {
        1
    }
}

/// How many starts there are among alternating `markers`.
pub open spec fn start_count(markers: Seq<Marker>) -> int {
    (markers.len() + 1 - first_start(markers)) / 2
}

/// The span that the `k`-th start among alternating `markers` closes: from
/// the end of the silence before it to the start itself.
pub open spec fn span_before_start(last_end: int, markers: Seq<Marker>, k: int) -> KeepInterval {
    let at = first_start(markers) + 2 * k;
    let from = timestamp_before(last_end, markers, at);
    KeepInterval { start: from as i64, duration: (timestamp_of(markers[at]) - from) as i64 }
}

/// Whether `markers` take turns, carry timestamps in range, and leave no
/// gap too short to keep, after a silence that ended at `last_end`.
spec fn regular(last_end: int, markers: Seq<Marker>) -> bool {
    &&& -MAX_MICROS <= last_end <= MAX_MICROS
    &&& forall|i: int| 0 <= i < markers.len() ==> (#[trigger] markers[i]).in_range()
    &&& alternating(markers)
    &&& gaps_worth_keeping(last_end, markers)
}

/// What is left of regular markers after the first is regular too, for a
/// scan that goes on from where the first marker leaves the cursor.
proof fn lemma_regular_rest(last_end: int, markers: Seq<Marker>)
    requires
        regular(last_end, markers),
        markers.len() > 0,
    ensures
        regular(end_after(last_end, markers[0]), markers.drop_first()),
        markers.len() > 1 ==> (markers[0] is SilenceStart) != (markers[1] is SilenceStart),
        !(markers[0] is Other),
{
    let rest = markers.drop_first();
    let next = end_after(last_end, markers[0]);
    assert(markers[0].in_range());
    assert forall|i: int| 0 <= i < rest.len() implies (#[trigger] rest[i]).in_range() by {
        assert(rest[i] == markers[i + 1]);
    }
    assert forall|i: int| 0 <= i < rest.len() implies !(#[trigger] rest[i] is Other) by {
        assert(rest[i] == markers[i + 1]);
    }
    assert forall|i: int| 0 <= i < rest.len() - 1 implies ((#[trigger] rest[i] is SilenceStart) != (
    rest[i + 1] is SilenceStart)) by {
        assert(rest[i] == markers[i + 1]);
        assert(rest[i + 1] == markers[i + 2]);
    }
    assert forall|i: int| 0 <= i < rest.len() && #[trigger] rest[i] is SilenceStart implies timestamp_of(
        rest[i],
    ) - timestamp_before(next, rest, i) > MIN_GAP_MICROS by {
        assert(rest[i] == markers[i + 1]);
        assert(markers[i + 1] is SilenceStart);
        if i > 0 {
            assert(rest[i - 1] == markers[i]);
        } else {
            assert((markers[0] is SilenceStart) != (markers[1] is SilenceStart));
        }
    }
}

/// Over regular markers, one span is kept for every start: the span before it.
proof fn lemma_regular_scan(last_end: int, markers: Seq<Marker>)
    requires
        regular(last_end, markers),
    ensures
        scan(last_end, markers).len() == start_count(markers),
        forall|k: int|
            0 <= k < start_count(markers) ==> #[trigger] scan(last_end, markers)[k]
                == span_before_start(last_end, markers, k),
    decreases markers.len(),
{
    if markers.len() > 0 {
        let first = markers[0];
        let rest = markers.drop_first();
        let next = end_after(last_end, first);
        lemma_regular_rest(last_end, markers);
        lemma_regular_scan(next, rest);
        let out = scan(last_end, markers);
        let tail = scan(next, rest);
        if first is SilenceStart {
            assert(timestamp_of(markers[0]) - timestamp_before(last_end, markers, 0)
                > MIN_GAP_MICROS);
            assert(next == last_end);
            assert(out == seq![kept_at(last_end, first).unwrap()] + tail);
            assert(first_start(rest) == 1);
            assert(start_count(markers) == start_count(rest) + 1);
            assert forall|k: int| 0 <= k < start_count(markers) implies #[trigger] out[k]
                == span_before_start(last_end, markers, k) by {
                if k > 0 {
                    assert(out[k] == tail[k - 1]);
                    assert(tail[k - 1] == span_before_start(next, rest, k - 1));
                    let at = 1 + 2 * (k - 1);
                    assert(rest[at] == markers[at + 1]);
                    assert(rest[at - 1] == markers[at]);
                }
            }
        } else {
            assert(first is SilenceEnd);
            assert(out == tail);
            assert(first_start(markers) == 1);
            assert(rest.len() > 0 ==> first_start(rest) == 0);
            assert(start_count(markers) == start_count(rest));
            assert forall|k: int| 0 <= k < start_count(markers) implies #[trigger] out[k]
                == span_before_start(last_end, markers, k) by {
                assert(tail[k] == span_before_start(next, rest, k));
                let at = 2 * k;
                assert(rest[at] == markers[at + 1]);
                if at > 0 {
                    assert(rest[at - 1] == markers[at]);
                }
            }
        }
    }
}

/// Over markers that take turns, with timestamps that grow strictly and no
/// gap too short to keep, the spans kept are exactly the complement of the
/// silent spans: one for every start, from the end of the silence before it
/// to the start itself, and in the order of the markers.
pub proof fn law_alternating_markers_keep_complement(last_end: int, markers: Seq<Marker>)
    requires
        -MAX_MICROS <= last_end <= MAX_MICROS,
        forall|i: int| 0 <= i < markers.len() ==> (#[trigger] markers[i]).in_range(),
        alternating(markers),
        increasing(last_end, markers),
        gaps_worth_keeping(last_end, markers),
    ensures
        scan(last_end, markers).len() == start_count(markers),
        forall|k: int|
            0 <= k < start_count(markers) ==> #[trigger] scan(last_end, markers)[k]
                == span_before_start(last_end, markers, k),
        forall|k: int|
            0 <= k < start_count(markers) ==> (#[trigger] scan(last_end, markers)[k]).duration
                > 0,
        forall|k: int|
            0 <= k < start_count(markers) - 1 ==> (#[trigger] scan(last_end, markers)[k]).end()
                < scan(last_end, markers)[k + 1].start,
{
    lemma_regular_scan(last_end, markers);
    let out = scan(last_end, markers);
    let first = first_start(markers);
    assert forall|k: int| 0 <= k < start_count(markers) implies (#[trigger] out[k]).duration
        > 0 by {
        let at = first + 2 * k;
        assert(out[k] == span_before_start(last_end, markers, k));
        assert(markers[at].in_range());
        if at > 0 {
            assert(markers[at - 1].in_range());
            assert((markers[at - 1] is SilenceStart) != (markers[at] is SilenceStart));
        }
        lemma_starts_take_turns(markers, k);
    }
    assert forall|k: int| 0 <= k < start_count(markers) - 1 implies (#[trigger] out[k]).end()
        < out[k + 1].start by {
        let at = first + 2 * k;
        assert(out[k] == span_before_start(last_end, markers, k));
        assert(out[k + 1] == span_before_start(last_end, markers, k + 1));
        assert(markers[at].in_range());
        assert(markers[at + 1].in_range());
        if at > 0 {
            assert(markers[at - 1].in_range());
        }
        assert(timestamp_of(markers[at]) < timestamp_of(markers[at + 1]));
    }
}

/// Among markers that take turns, the `k`-th start is a start.
proof fn lemma_starts_take_turns(markers: Seq<Marker>, k: int)
    requires
        alternating(markers),
        0 <= k < start_count(markers),
    ensures
        markers[first_start(markers) + 2 * k] is SilenceStart,
    decreases k,
{
    let first = first_start(markers);
    if k == 0 {
        if first == 1 {
            assert(!(markers[0] is Other));
            assert((markers[0] is SilenceStart) != (markers[1] is SilenceStart));
        }
    } else {
        lemma_starts_take_turns(markers, k - 1);
        let at = first + 2 * (k - 1);
        assert((markers[at] is SilenceStart) != (markers[at + 1] is SilenceStart));
        assert((markers[at + 1] is SilenceStart) != (markers[at + 2] is SilenceStart));
        assert(!(markers[at + 1] is Other));
        assert(!(markers[at + 2] is Other));
    }
}

/// Where no timestamp is negative, every span kept lies in the recording and
/// runs forward.
pub proof fn law_kept_spans_run_forward(last_end: int, markers: Seq<Marker>)
    requires
        0 <= last_end <= MAX_MICROS,
        forall|i: int| 0 <= i < markers.len() ==> (#[trigger] markers[i]).in_range(),
        forall|i: int| 0 <= i < markers.len() ==> timestamp_of(#[trigger] markers[i]) >= 0,
        alternating(markers),
        increasing(last_end, markers),
        gaps_worth_keeping(last_end, markers),
    ensures
        forall|k: int|
            0 <= k < scan(last_end, markers).len() ==> (#[trigger] scan(
                last_end,
                markers,
            )[k]).is_forward(),
{
    law_alternating_markers_keep_complement(last_end, markers);
    let out = scan(last_end, markers);
    assert forall|k: int| 0 <= k < out.len() implies (#[trigger] out[k]).is_forward() by {
        let at = first_start(markers) + 2 * k;
        assert(out[k] == span_before_start(last_end, markers, k));
        if at > 0 {
            assert(markers[at - 1].in_range());
            assert(timestamp_of(markers[at - 1]) >= 0);
        }
    }
}

/// A marker that closes no span and leaves the cursor where it was can be
/// taken out of a stream, wherever it stands, and the same spans are kept.
pub proof fn law_idle_marker_changes_nothing(
    last_end: int,
    before: Seq<Marker>,
    marker: Marker,
    after: Seq<Marker>,
)
    requires
        kept_at(end_after_all(last_end, before), marker) is None,
        end_after(end_after_all(last_end, before), marker) == end_after_all(last_end, before),
    ensures
        scan(last_end, before + seq![marker] + after) == scan(last_end, before + after),
        end_after_all(last_end, before + seq![marker] + after) == end_after_all(
            last_end,
            before + after,
        ),
{
    let here = end_after_all(last_end, before);
    let one = seq![marker];
    assert(one.drop_first() =~= Seq::<Marker>::empty());
    assert(scan(here, one) =~= Seq::<KeepInterval>::empty()) by {
        reveal_with_fuel(scan, 2);
    }
    assert(end_after_all(here, one) == here) by {
        reveal_with_fuel(end_after_all, 2);
    }
    lemma_scan_concat(last_end, before, one);
    lemma_scan_concat(last_end, before + one, after);
    lemma_scan_concat(last_end, before, after);
    assert(scan(last_end, before) + Seq::<KeepInterval>::empty() =~= scan(last_end, before));
}

/// The start of a silence within [`MIN_GAP_MICROS`] of the end of the last
/// one closes no span and leaves the cursor where it was.
pub proof fn law_degenerate_gap_is_suppressed(last_end: int, start: i64)
    requires
        -MIN_GAP_MICROS <= start - last_end <= MIN_GAP_MICROS,
    ensures
        kept_at(last_end, Marker::SilenceStart(start)) is None,
        end_after(last_end, Marker::SilenceStart(start)) == last_end,
{
}

/// A line whose timestamp cannot be read reports nothing: it closes no span
/// and leaves the cursor where it was. The timestamp that counts is the one
/// after the end keyword where the line holds that keyword, else the one
/// after the start keyword.
pub proof fn law_unreadable_timestamp_is_ignored(last_end: int, line: Seq<char>)
    requires
        if contains(line, end_keyword()) {
            keyword_value(line, end_keyword()) is None
        } else {
            keyword_value(line, start_keyword()) is None
        },
    ensures
        classify(line) == Marker::Other,
        kept_at(last_end, classify(line)) is None,
        end_after(last_end, classify(line)) == last_end,
{
}

} // verus!
