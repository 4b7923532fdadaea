//! Playback of a sticker as contracts see it: the timeline of an animation,
//! the place a session has reached in it, and what a tick does.

use crate::playback::PlaybackState;
use vstd::prelude::*;

verus! {

/// The frame times of an animation, in milliseconds and in display order,
/// and whether it starts over after its last frame.
pub struct Timeline {
    pub durations: Seq<u64>,
    pub looping: bool,
}

/// A place in a timeline: the frame shown and the time since it came up.
pub struct Cursor {
    pub index: nat,
    pub offset: nat,
}

/// The time in all, in milliseconds, of the entries of `durations` from
/// `from` up to, not including, `to`.
pub open spec fn span_ms(durations: Seq<u64>, from: int, to: int) -> nat
    decreases to - from,
{
    if from >= to {
        0
    } else {
        durations[from] as nat + span_ms(durations, from + 1, to)
    }
}

/// The sum of `durations`.
pub open spec fn total_ms(durations: Seq<u64>) -> nat {
    span_ms(durations, 0, durations.len() as int)
}

impl Timeline {
    /// There is a frame, and every frame is shown for some time.
    pub open spec fn wf(self) -> bool {
        &&& self.durations.len() > 0
        &&& forall|i: int| 0 <= i < self.durations.len() ==> self.durations[i] > 0
    }

    /// The time of all frames, in milliseconds.
    pub open spec fn total(self) -> nat {
        total_ms(self.durations)
    }

    /// The index of the last frame.
    pub open spec fn last_index(self) -> nat {
        (self.durations.len() - 1) as nat
    }

    /// The place where an animation that does not start over comes to rest:
    /// the last frame, with all of its time spent.
    pub open spec fn rest(self) -> Cursor {
        Cursor { index: self.last_index(), offset: self.durations.last() as nat }
    }

    /// `cursor` is a place that playback can be in: on a frame, with less
    /// than its time spent, or at rest.
    pub open spec fn holds(self, cursor: Cursor) -> bool {
        &&& cursor.index < self.durations.len()
        &&& cursor.offset < self.durations[cursor.index as int] || (!self.looping && cursor
            == self.rest())
    }

    /// The place reached when frame `index` has been up for `elapsed`
    /// milliseconds. A frame whose time is spent gives way to the next, with
    /// what is left of `elapsed`; after the last frame comes the first, or,
    /// where the animation does not start over, playback rests.
    pub open spec fn advance(self, index: nat, elapsed: nat) -> Cursor
        decreases elapsed,
    {
        if index >= self.durations.len() || self.durations[index as int] == 0 || elapsed
            < self.durations[index as int] {
            Cursor { index, offset: elapsed }
        } else if index + 1 < self.durations.len() {
            self.advance(index + 1, (elapsed - self.durations[index as int]) as nat)
        } else if self.looping {
            self.advance(0, (elapsed - self.durations[index as int]) as nat)
        } else {
            self.rest()
        }
    }
}

/// What is shown: a still image, or an animation with its timeline.
pub enum SourceModel {
    Static,
    Animated(Timeline),
}

/// A playback session: what it shows, the place it has reached, and
/// whether it was cancelled.
pub struct SessionModel {
    pub source: SourceModel,
    pub cursor: Cursor,
    pub cancelled: bool,
}

impl SessionModel {
    /// The source is well formed and the cursor is a place in it.
    pub open spec fn wf(self) -> bool {
        match self.source {
            SourceModel::Static => self.cursor == (Cursor { index: 0, offset: 0 }),
            SourceModel::Animated(timeline) => timeline.wf() && timeline.holds(self.cursor),
        }
    }

    /// A session as it starts: on the first frame, with no time spent.
    pub open spec fn start(source: SourceModel) -> SessionModel {
        SessionModel { source, cursor: Cursor { index: 0, offset: 0 }, cancelled: false }
    }

    /// The state of the session.
    pub open spec fn state(self) -> PlaybackState {
        if self.cancelled {
            PlaybackState::Cancelled
        } else if self.source is Static {
            PlaybackState::Idle
        } else {
            PlaybackState::Playing
        }
    }

    /// The session after a tick that reports `elapsed` milliseconds since
    /// the tick before: unchanged where it is cancelled or shows a still
    /// image, else moved on by that time.
    pub open spec fn tick(self, elapsed: nat) -> SessionModel {
        match self.source {
            SourceModel::Animated(timeline) if !self.cancelled => SessionModel {
                cursor: timeline.advance(self.cursor.index, self.cursor.offset + elapsed),
                ..self
            },
            _ => self,
        }
    }

    /// The frame that a tick hands to the render sink: the frame that the
    /// tick arrives on, where that is another than the one shown before.
    pub open spec fn rendered(self, elapsed: nat) -> Option<nat> {
        if self.tick(elapsed).cursor.index != self.cursor.index {
            Some(self.tick(elapsed).cursor.index)
        } else {
            None
        }
    }

    /// The session after it was cancelled.
    pub open spec fn cancel(self) -> SessionModel {
        SessionModel { cancelled: true, ..self }
    }

    /// No tick will bring up another frame: the session is cancelled, shows
    /// a still image, or has come to rest on its last frame.
    pub open spec fn finished(self) -> bool {
        match self.source {
            SourceModel::Animated(timeline) => self.cancelled || (!timeline.looping
                && self.cursor == timeline.rest()),
            SourceModel::Static => true,
        }
    }

    /// The session after the ticks of `ticks`, each with its elapsed time,
    /// the first of them first.
    pub open spec fn tick_all(self, ticks: Seq<u64>) -> SessionModel
        decreases ticks.len(),
    {
        if ticks.len() == 0 {
            self
        } else {
            self.tick_all(ticks.drop_last()).tick(ticks.last() as nat)
        }
    }
}

/// A span is the sum of its two parts, wherever it is cut.
pub(crate) proof fn lemma_span_split(durations: Seq<u64>, from: int, cut: int, to: int)
    requires
        from <= cut <= to,
    ensures
        span_ms(durations, from, to) == span_ms(durations, from, cut) + span_ms(
            durations,
            cut,
            to,
        ),
    decreases cut - from,
{
    if from < cut {
        lemma_span_split(durations, from + 1, cut, to);
    }
}

/// A span depends on the entries inside it alone.
pub(crate) proof fn lemma_span_same(first: Seq<u64>, second: Seq<u64>, from: int, to: int)
    requires
        0 <= from,
        to <= first.len(),
        to <= second.len(),
        forall|i: int| from <= i < to ==> first[i] == second[i],
    ensures
        span_ms(first, from, to) == span_ms(second, from, to),
    decreases to - from,
{
    if from < to {
        lemma_span_same(first, second, from + 1, to);
    }
}

/// The sum of a sequence is the sum of all but its last entry, and the last.
pub(crate) proof fn lemma_total_last(durations: Seq<u64>)
    requires
        durations.len() > 0,
    ensures
        total_ms(durations) == total_ms(durations.drop_last()) + durations.last() as nat,
{
    let n = durations.len() as int;
    lemma_span_split(durations, 0, n - 1, n);
    lemma_span_same(durations, durations.drop_last(), 0, n - 1);
    assert(span_ms(durations, n - 1, n) == durations[n - 1] as nat + span_ms(durations, n, n));
}

/// A well-formed timeline takes some time.
pub proof fn lemma_total_positive(timeline: Timeline)
    requires
        timeline.wf(),
    ensures
        timeline.total() > 0,
{
    assert(timeline.total() == timeline.durations[0] as nat + span_ms(
        timeline.durations,
        1,
        timeline.durations.len() as int,
    ));
}

/// From a frame of a well-formed timeline, playback always reaches a place
/// of that timeline.
pub proof fn lemma_advance_holds(timeline: Timeline, index: nat, elapsed: nat)
    requires
        timeline.wf(),
        index < timeline.durations.len(),
    ensures
        timeline.holds(timeline.advance(index, elapsed)),
    decreases elapsed,
{
    let duration = timeline.durations[index as int] as nat;
    if elapsed >= duration {
        if index + 1 < timeline.durations.len() {
            lemma_advance_holds(timeline, index + 1, (elapsed - duration) as nat);
        } else if timeline.looping {
            lemma_advance_holds(timeline, 0, (elapsed - duration) as nat);
        }
    }
}

/// Time adds up: to let `first` milliseconds pass and `second` more from
/// the place reached is to let their sum pass at once.
pub proof fn lemma_advance_adds(timeline: Timeline, index: nat, first: nat, second: nat)
    requires
        timeline.wf(),
        index < timeline.durations.len(),
    ensures
        timeline.advance(
            timeline.advance(index, first).index,
            timeline.advance(index, first).offset + second,
        ) == timeline.advance(index, first + second),
    decreases first,
{
    let duration = timeline.durations[index as int] as nat;
    if first >= duration {
        if index + 1 < timeline.durations.len() {
            lemma_advance_adds(timeline, index + 1, (first - duration) as nat, second);
        } else if timeline.looping {
            lemma_advance_adds(timeline, 0, (first - duration) as nat, second);
        }
    }
}

/// Time that covers the frames from `index` up to a later frame `later`
/// brings playback to that frame, with what is left of the time.
pub(crate) proof fn lemma_advance_through(timeline: Timeline, index: nat, later: nat, elapsed: nat)
    requires
        timeline.wf(),
        index <= later < timeline.durations.len(),
        elapsed >= span_ms(timeline.durations, index as int, later as int),
    ensures
        timeline.advance(index, elapsed) == timeline.advance(
            later,
            (elapsed - span_ms(timeline.durations, index as int, later as int)) as nat,
        ),
    decreases later - index,
{
    if index < later {
        let duration = timeline.durations[index as int] as nat;
        lemma_advance_through(timeline, index + 1, later, (elapsed - duration) as nat);
    }
}

/// An animation that starts over is back where it was after the time of
/// all its frames.
pub proof fn lemma_loop_period(timeline: Timeline, index: nat, elapsed: nat)
    requires
        timeline.wf(),
        timeline.looping,
        index < timeline.durations.len(),
    ensures
        timeline.advance(index, elapsed + timeline.total()) == timeline.advance(index, elapsed),
{
    let durations = timeline.durations;
    let count = durations.len() as int;
    let last = timeline.last_index();
    let head = span_ms(durations, 0, index as int);
    let tail = span_ms(durations, index as int, count);
    lemma_span_split(durations, 0, index as int, count);
    lemma_span_split(durations, index as int, count - 1, count);
    assert(span_ms(durations, count - 1, count) == durations[count - 1] as nat + span_ms(
        durations,
        count,
        count,
    ));
    // Through the rest of this round, to the last frame and over to the first.
    lemma_advance_through(timeline, index, last, elapsed + timeline.total());
    let at_last = (elapsed + timeline.total() - span_ms(durations, index as int, count - 1)) as nat;
    assert(timeline.advance(last, at_last) == timeline.advance(
        0,
        (at_last - durations[count - 1]) as nat,
    ));
    assert(at_last - durations[count - 1] == elapsed + head);
    // And from the first frame to this one again.
    lemma_advance_through(timeline, 0, index, elapsed + head);
}

/// In an animation that starts over, whole rounds of time change nothing.
pub proof fn lemma_loop_rounds(timeline: Timeline, index: nat, elapsed: nat, rounds: nat)
    requires
        timeline.wf(),
        timeline.looping,
        index < timeline.durations.len(),
    ensures
        timeline.advance(index, elapsed + rounds * timeline.total()) == timeline.advance(
            index,
            elapsed,
        ),
    decreases rounds,
{
    let total = timeline.total();
    if rounds > 0 {
        let fewer = (rounds - 1) as nat;
        assert(elapsed + rounds * total == (elapsed + fewer * total) + total)
            by (nonlinear_arith)
            requires
                rounds == fewer + 1,
        ;
        lemma_loop_period(timeline, index, elapsed + fewer * total);
        lemma_loop_rounds(timeline, index, elapsed, fewer);
    } else {
        assert(rounds * total == 0) by (nonlinear_arith)
            requires
                rounds == 0,
        ;
    }
}

/// In an animation that starts over, only the time beyond whole rounds
/// counts.
pub proof fn lemma_loop_remainder(timeline: Timeline, index: nat, elapsed: nat)
    requires
        timeline.wf(),
        timeline.looping,
        index < timeline.durations.len(),
    ensures
        timeline.total() > 0,
        timeline.advance(index, elapsed) == timeline.advance(
            index,
            elapsed % timeline.total(),
        ),
{
    lemma_total_positive(timeline);
    let total = timeline.total();
    let rounds = elapsed / total;
    assert(elapsed == elapsed % total + rounds * total && rounds >= 0 && elapsed % total >= 0)
        by (nonlinear_arith)
        requires
            total > 0,
            elapsed >= 0,
            rounds == elapsed / total,
    ;
    lemma_loop_rounds(timeline, index, elapsed % total, rounds);
}

/// An animation that does not start over is at rest exactly when the time
/// of all the frames still ahead, the one shown included, has passed.
pub proof fn lemma_rest_when_spent(timeline: Timeline, index: nat, elapsed: nat)
    requires
        timeline.wf(),
        !timeline.looping,
        index < timeline.durations.len(),
    ensures
        timeline.advance(index, elapsed) == timeline.rest() <==> elapsed >= span_ms(
            timeline.durations,
            index as int,
            timeline.durations.len() as int,
        ),
    decreases timeline.durations.len() - index,
{
    let duration = timeline.durations[index as int] as nat;
    let count = timeline.durations.len() as int;
    assert(span_ms(timeline.durations, index as int, count) == duration + span_ms(
        timeline.durations,
        index as int + 1,
        count,
    ));
    if index + 1 < count {
        if elapsed >= duration {
            lemma_rest_when_spent(timeline, index + 1, (elapsed - duration) as nat);
        }
    } else {
        assert(span_ms(timeline.durations, index as int + 1, count) == 0);
    }
}

/// On the last frame of an animation that does not start over, no time
/// brings up another frame.
pub proof fn lemma_last_frame_stays(timeline: Timeline, elapsed: nat)
    requires
        timeline.wf(),
        !timeline.looping,
    ensures
        timeline.advance(timeline.last_index(), elapsed).index == timeline.last_index(),
{
}

/// An animation of a single frame never brings up another frame, whether
/// it starts over or not.
pub proof fn lemma_single_frame_stays(timeline: Timeline, elapsed: nat)
    requires
        timeline.wf(),
        timeline.durations.len() == 1,
    ensures
        timeline.advance(0, elapsed).index == 0,
    decreases elapsed,
{
    let duration = timeline.durations[0] as nat;
    if elapsed >= duration && timeline.looping {
        lemma_single_frame_stays(timeline, (elapsed - duration) as nat);
    }
}

/// A tick leaves a well-formed session well formed, and changes neither
/// what it shows nor whether it is cancelled.
pub proof fn lemma_tick_wf(session: SessionModel, elapsed: nat)
    requires
        session.wf(),
    ensures
        session.tick(elapsed).wf(),
        session.tick(elapsed).source == session.source,
        session.tick(elapsed).cancelled == session.cancelled,
{
    if let SourceModel::Animated(timeline) = session.source {
        lemma_advance_holds(timeline, session.cursor.index, session.cursor.offset + elapsed);
    }
}

/// A session that is cancelled, shows a still image or has come to rest
/// stays as it is under every tick, and the tick shows nothing.
pub proof fn lemma_finished_tick_is_idle(session: SessionModel, elapsed: nat)
    requires
        session.wf(),
        session.finished(),
    ensures
        session.tick(elapsed) == session,
        session.rendered(elapsed) is None,
{
}

/// A tick that reaches a cancelled session shows nothing and changes
/// nothing.
pub proof fn lemma_cancelled_tick_is_idle(session: SessionModel, elapsed: nat)
    requires
        session.cancelled,
    ensures
        session.tick(elapsed) == session,
        session.rendered(elapsed) is None,
{
}

/// Cancelling is final: no tick and no second cancelling undoes it.
pub proof fn lemma_cancel_is_final(session: SessionModel, elapsed: nat)
    ensures
        session.cancel().cancelled,
        session.cancel().cancel() == session.cancel(),
        session.cancel().tick(elapsed) == session.cancel(),
{
}

/// Two ticks in a row do what one tick with the sum of their times does.
pub proof fn lemma_tick_adds(session: SessionModel, first: nat, second: nat)
    requires
        session.wf(),
    ensures
        session.tick(first).tick(second) == session.tick(first + second),
{
    if let SourceModel::Animated(timeline) = session.source {
        if !session.cancelled {
            let spent = session.cursor.offset;
            lemma_advance_adds(timeline, session.cursor.index, spent + first, second);
        }
    }
}

/// However the time is cut into ticks, the session ends where one tick
/// with all of the time would bring it.
pub proof fn lemma_tick_all_sums(session: SessionModel, ticks: Seq<u64>)
    requires
        session.wf(),
    ensures
        session.tick_all(ticks) == session.tick(total_ms(ticks)),
        session.tick_all(ticks).wf(),
    decreases ticks.len(),
{
    if ticks.len() == 0 {
        if let SourceModel::Animated(timeline) = session.source {
            assert(timeline.advance(session.cursor.index, session.cursor.offset)
                == session.cursor);
        }
    } else {
        lemma_tick_all_sums(session, ticks.drop_last());
        lemma_total_last(ticks);
        lemma_tick_adds(session, total_ms(ticks.drop_last()), ticks.last() as nat);
    }
    lemma_tick_wf(session, total_ms(ticks));
}

/// Ticks whose times reach the time of all frames bring a fresh session
/// of an animation that does not start over to rest on its last frame. From
/// there on every tick leaves it as it is and shows nothing.
pub proof fn lemma_played_out(timeline: Timeline, ticks: Seq<u64>, later: nat)
    requires
        timeline.wf(),
        !timeline.looping,
        total_ms(ticks) >= timeline.total(),
    ensures
        SessionModel::start(SourceModel::Animated(timeline)).tick_all(ticks).cursor
            == timeline.rest(),
        SessionModel::start(SourceModel::Animated(timeline)).tick_all(ticks).finished(),
        SessionModel::start(SourceModel::Animated(timeline)).tick_all(ticks).tick(later)
            == SessionModel::start(SourceModel::Animated(timeline)).tick_all(ticks),
        SessionModel::start(SourceModel::Animated(timeline)).tick_all(ticks).rendered(later)
            is None,
{
    let fresh = SessionModel::start(SourceModel::Animated(timeline));
    lemma_tick_all_sums(fresh, ticks);
    lemma_rest_when_spent(timeline, 0, total_ms(ticks));
}

/// Ticks bring a fresh session of an animation that starts over to the
/// place that lies as far into a round as their times in all reach beyond
/// whole rounds.
pub proof fn lemma_loop_settles(timeline: Timeline, ticks: Seq<u64>)
    requires
        timeline.wf(),
        timeline.looping,
    ensures
        timeline.total() > 0,
        SessionModel::start(SourceModel::Animated(timeline)).tick_all(ticks).cursor
            == timeline.advance(0, total_ms(ticks) % timeline.total()),
{
    let fresh = SessionModel::start(SourceModel::Animated(timeline));
    lemma_tick_all_sums(fresh, ticks);
    lemma_loop_remainder(timeline, 0, total_ms(ticks));
}

} // verus!
