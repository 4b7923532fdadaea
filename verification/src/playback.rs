//! Playback of stickers: what a decoded image is, and the session that
//! moves an animation on from tick to tick.
//!
//! The pixels stay with the caller. A frame is known here by its index, and
//! a session answers each tick with the index of the frame to show, if
//! another frame is to be shown.

use crate::playback_model::{
    lemma_finished_tick_is_idle, lemma_loop_rounds, lemma_total_last, total_ms, Cursor, SessionModel,
    SourceModel, Timeline,
};
use vstd::prelude::*;

verus! {

/// Display time, in milliseconds, of a frame whose own time is missing or
/// not positive.
pub const MIN_FRAME_MS: u64 = 20;

/// The display time of a frame that was decoded with `raw_ms` milliseconds.
pub open spec fn frame_ms(raw_ms: i64) -> u64 {
    if raw_ms <= 0 {
        MIN_FRAME_MS
    } else {
        raw_ms as u64
    }
}

/// The display times of frames that were decoded with the times of `raw`.
pub open spec fn frame_times(raw: Seq<i64>) -> Seq<u64> {
    raw.map_values(|raw_ms: i64| frame_ms(raw_ms))
}

/// The display time of a frame that was decoded with `raw_ms` milliseconds:
/// that time where it is positive, else [`MIN_FRAME_MS`].
pub fn frame_duration(raw_ms: i64) -> (ms: u64)
    ensures
        ms == frame_ms(raw_ms),
        ms > 0,
{
    if raw_ms <= 0 {
        MIN_FRAME_MS
    } else {
        raw_ms as u64
    }
}

/// Why decoded frames make no image.
#[derive(Clone, Copy, Debug, PartialEq, Eq, Structural)]
pub enum DecodeError {
    /// The decoder gave no frame at all.
    NoFrames,
}

/// The frame times of an animation and whether it starts over.
#[derive(Debug)]
pub struct Animation {
    durations: Vec<u64>,
    looping: bool,
    /// The time of all frames.
    total_ms: u128,
}

impl View for Animation {
    type V = Timeline;

    closed spec fn view(&self) -> Timeline {
        Timeline { durations: self.durations@, looping: self.looping }
    }
}

impl Clone for Animation {
    fn clone(&self) -> (copy: Self)
        ensures
            copy@ == self@,
    {
        proof {
            use_type_invariant(self);
        }
        let mut durations: Vec<u64> = Vec::new();
        let mut i: usize = 0;
        while i < self.durations.len()
            invariant
                i <= self.durations.len(),
                durations@ == self.durations@.take(i as int),
            decreases self.durations.len() - i,
        {
            durations.push(self.durations[i]);
            assert(durations@ =~= self.durations@.take(i + 1));
            i += 1;
        }
        assert(durations@ =~= self.durations@);
        Animation { durations, looping: self.looping, total_ms: self.total_ms }
    }
}

impl Animation {
    #[verifier::type_invariant]
    spec fn inv(self) -> bool {
        &&& self@.wf()
        &&& self.total_ms == self@.total()
    }

    /// The animation whose frames were decoded with the times of
    /// `raw_durations_ms`, in milliseconds, each time that is not positive
    /// replaced by [`MIN_FRAME_MS`]. There is none without a frame.
    pub fn new(raw_durations_ms: &[i64], looping: bool) -> (made: Result<Animation, DecodeError>)
        ensures
            match made {
                Ok(animation) => {
                    &&& raw_durations_ms@.len() > 0
                    &&& animation@ == (Timeline {
                        durations: frame_times(raw_durations_ms@),
                        looping,
                    })
                    &&& animation@.wf()
                },
                Err(error) => raw_durations_ms@.len() == 0 && error == DecodeError::NoFrames,
            },
    {
        if raw_durations_ms.len() == 0 {
            return Err(DecodeError::NoFrames);
        }
        let mut durations: Vec<u64> = Vec::new();
        let mut total: u128 = 0;
        let mut i: usize = 0;
        while i < raw_durations_ms.len()
            invariant
                i <= raw_durations_ms@.len(),
                durations@ == frame_times(raw_durations_ms@).take(i as int),
                total == total_ms(durations@),
                total <= i * u64::MAX,
            decreases raw_durations_ms@.len() - i,
        {
            let duration = frame_duration(raw_durations_ms[i]);
            proof {
                lemma_total_last(durations@.push(duration));
                assert(durations@.push(duration).drop_last() =~= durations@);
                assert(i * u64::MAX + u64::MAX == (i + 1) * u64::MAX && (i + 1) * u64::MAX
                    <= u128::MAX) by (nonlinear_arith)
                    requires
                        0 <= i < usize::MAX,
                        usize::MAX <= u64::MAX,
                ;
            }
            durations.push(duration);
            total = total + duration as u128;
            assert(durations@ =~= frame_times(raw_durations_ms@).take(i + 1));
            i += 1;
        }
        assert(durations@ =~= frame_times(raw_durations_ms@));
        Ok(Animation { durations, looping, total_ms: total })
    }

    /// The number of frames, which is not zero.
    pub fn frame_count(&self) -> (count: usize)
        ensures
            count == self@.durations.len(),
            count > 0,
    {
        proof {
            use_type_invariant(self);
        }
        self.durations.len()
    }

    /// Whether the animation starts over after its last frame.
    pub fn is_looping(&self) -> (looping: bool)
        ensures
            looping == self@.looping,
    {
        self.looping
    }

    /// The display time of frame `index` in milliseconds, which is not
    /// zero; none where there is no such frame.
    pub fn duration_ms(&self, index: usize) -> (ms: Option<u64>)
        ensures
            self@.wf(),
            index < self@.durations.len() ==> ms == Some(self@.durations[index as int]),
            index >= self@.durations.len() ==> ms is None,
    {
        proof {
            use_type_invariant(self);
        }
        if index < self.durations.len() {
            Some(self.durations[index])
        } else {
            None
        }
    }

    /// The place reached from `index` and `offset` after `elapsed`
    /// milliseconds more.
    fn advance(&self, index: usize, offset: u64, elapsed: u64) -> (reached: (usize, u64))
        requires
            self@.holds(Cursor { index: index as nat, offset: offset as nat }),
        ensures
            self@.wf(),
            (Cursor { index: reached.0 as nat, offset: reached.1 as nat }) == self@.advance(
                index as nat,
                (offset + elapsed) as nat,
            ),
            self@.holds(Cursor { index: reached.0 as nat, offset: reached.1 as nat }),
    {
        proof {
            use_type_invariant(self);
        }
        let mut at: usize = index;
        let mut spent: u64 = offset;
        let mut left: u64 = elapsed;
        if self.looping && left as u128 >= self.total_ms {
            // Whole rounds bring playback back to where it is.
            let beyond = left as u128 % self.total_ms;
            proof {
                let total = self@.total();
                let rounds = elapsed as nat / total;
                assert(elapsed == beyond + rounds * total && beyond <= elapsed) by (nonlinear_arith)
                    requires
                        total > 0,
                        elapsed >= 0,
                        beyond == elapsed as nat % total,
                        rounds == elapsed as nat / total,
                ;
                lemma_loop_rounds(self@, index as nat, (offset + beyond) as nat, rounds);
            }
            left = beyond as u64;
        }
        loop
            invariant
                self@.wf(),
                self@.holds(Cursor { index: at as nat, offset: spent as nat }),
                self@.advance(at as nat, (spent + left) as nat) == self@.advance(
                    index as nat,
                    (offset + elapsed) as nat,
                ),
            decreases left,
        {
            let duration = self.durations[at];
            if spent >= duration {
                return (at, spent);
            }
            let room = duration - spent;
            if left < room {
                return (at, spent + left);
            }
            if at < self.durations.len() - 1 {
                at += 1;
            } else if self.looping {
                at = 0;
            } else {
                return (at, duration);
            }
            left -= room;
            spent = 0;
        }
    }
}

/// What is shown: a still image, or an animation.
#[derive(Debug)]
pub enum ImageSource {
    Static,
    Animated(Animation),
}

impl View for ImageSource {
    type V = SourceModel;

    open spec fn view(&self) -> SourceModel {
        match self {
            ImageSource::Static => SourceModel::Static,
            ImageSource::Animated(animation) => SourceModel::Animated(animation@),
        }
    }
}

impl Clone for ImageSource {
    fn clone(&self) -> (copy: Self)
        ensures
            copy@ == self@,
    {
        match self {
            ImageSource::Static => ImageSource::Static,
            ImageSource::Animated(animation) => ImageSource::Animated(animation.clone()),
        }
    }
}

impl ImageSource {
    /// Whether this is an animation, so that ticks are of use to a session
    /// that shows it.
    pub fn is_animated(&self) -> (animated: bool)
        ensures
            animated == (self@ is Animated),
    {
        match self {
            ImageSource::Static => false,
            ImageSource::Animated(_) => true,
        }
    }
}

/// The states of a playback session.
#[derive(Clone, Copy, Debug, PartialEq, Eq, Structural)]
pub enum PlaybackState {
    /// A still image is shown; there is nothing to advance.
    Idle,
    /// An animation is shown and ticks advance it.
    Playing,
    /// The session was cancelled; ticks no longer reach it.
    Cancelled,
}

/// The frame that a session shows and the time since it came up.
#[derive(Clone, Copy, Debug)]
struct Position {
    index: usize,
    offset: u64,
}

/// One showing of a sticker. It starts on the first frame, moves on with
/// the time that ticks report, and does nothing more once it is cancelled.
#[derive(Debug)]
pub struct PlaybackSession {
    source: ImageSource,
    position: Position,
    cancelled: bool,
}

impl View for PlaybackSession {
    type V = SessionModel;

    closed spec fn view(&self) -> SessionModel {
        SessionModel {
            source: self.source@,
            cursor: Cursor { index: self.position.index as nat, offset: self.position.offset as nat },
            cancelled: self.cancelled,
        }
    }
}

impl PlaybackSession {
    #[verifier::type_invariant]
    spec fn inv(self) -> bool {
        self@.wf()
    }

    /// A session that shows `source`, on its first frame: the caller shows
    /// frame 0 once, and drives the session with ticks where the source is
    /// an animation.
    pub fn start(source: ImageSource) -> (session: Self)
        ensures
            session@ == SessionModel::start(source@),
            session@.wf(),
    {
        match &source {
            ImageSource::Static => {},
            ImageSource::Animated(animation) => {
                proof {
                    use_type_invariant(animation);
                }
            },
        }
        PlaybackSession { source, position: Position { index: 0, offset: 0 }, cancelled: false }
    }

    /// Moves the session on by `elapsed_ms`, the milliseconds since the
    /// tick before (or since the start). Gives the frame to show where the
    /// tick arrives on another frame than was shown, else nothing; a
    /// cancelled session and one that shows a still image stay as they are.
    pub fn tick(&mut self, elapsed_ms: u64) -> (render: Option<usize>)
        ensures
            final(self)@ == old(self)@.tick(elapsed_ms as nat),
            final(self)@.wf(),
            match render {
                Some(index) => old(self)@.rendered(elapsed_ms as nat) == Some(index as nat),
                None => old(self)@.rendered(elapsed_ms as nat) is None,
            },
            old(self)@.cancelled ==> render is None && final(self)@ == old(self)@,
            old(self)@.finished() ==> render is None && final(self)@ == old(self)@,
    {
        proof {
            use_type_invariant(&*self);
            if self@.finished() {
                lemma_finished_tick_is_idle(self@, elapsed_ms as nat);
            }
        }
        if self.cancelled {
            return None;
        }
        let shown = self.position.index;
        let reached = match &self.source {
            ImageSource::Static => {
                return None;
            },
            ImageSource::Animated(animation) => animation.advance(
                self.position.index,
                self.position.offset,
                elapsed_ms,
            ),
        };
        self.position = Position { index: reached.0, offset: reached.1 };
        if reached.0 != shown {
            Some(reached.0)
        } else {
            None
        }
    }

    /// Cancels the session: from now on ticks change nothing and show
    /// nothing. Cancelling again changes nothing.
    pub fn cancel(&mut self)
        ensures
            final(self)@ == old(self)@.cancel(),
            final(self)@.wf(),
    {
        proof {
            use_type_invariant(&*self);
        }
        self.cancelled = true;
    }

    /// The index of the frame shown.
    pub fn current_index(&self) -> (index: usize)
        ensures
            index == self@.cursor.index,
    {
        self.position.index
    }

    /// The milliseconds since the frame shown came up.
    pub fn elapsed_since_frame_start(&self) -> (ms: u64)
        ensures
            ms == self@.cursor.offset,
    {
        self.position.offset
    }

    /// Whether the session was cancelled.
    pub fn is_cancelled(&self) -> (cancelled: bool)
        ensures
            cancelled == self@.cancelled,
    {
        self.cancelled
    }

    /// The state of the session.
    pub fn state(&self) -> (state: PlaybackState)
        ensures
            state == self@.state(),
    {
        if self.cancelled {
            PlaybackState::Cancelled
        } else if self.source.is_animated() {
            PlaybackState::Playing
        } else {
            PlaybackState::Idle
        }
    }

    /// Whether the session has nothing left to do: it is cancelled, shows a
    /// still image, or has come to rest on the last frame of an animation
    /// that does not start over. The caller may stop its timer.
    pub fn is_finished(&self) -> (finished: bool)
        ensures
            finished == self@.finished(),
    {
        proof {
            use_type_invariant(self);
        }
        match &self.source {
            ImageSource::Static => true,
            ImageSource::Animated(animation) => {
                proof {
                    use_type_invariant(animation);
                }
                self.cancelled || (!animation.looping && self.position.index
                    == animation.durations.len() - 1 && self.position.offset
                    == animation.durations[self.position.index])
            },
        }
    }
}

} // verus!
