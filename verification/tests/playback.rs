use stickerbook::playback::{
    frame_duration, Animation, DecodeError, ImageSource, PlaybackSession, PlaybackState,
    MIN_FRAME_MS,
};

fn animated(raw: &[i64], looping: bool) -> ImageSource {
    ImageSource::Animated(Animation::new(raw, looping).unwrap())
}

fn at(session: &PlaybackSession) -> (usize, u64) {
    (session.current_index(), session.elapsed_since_frame_start())
}

#[test]
fn frame_times_that_are_not_positive_become_the_minimum() {
    assert_eq!(MIN_FRAME_MS, 20);
    assert_eq!(frame_duration(0), 20);
    assert_eq!(frame_duration(-1), 20);
    assert_eq!(frame_duration(i64::MIN), 20);
    assert_eq!(frame_duration(1), 1);
    assert_eq!(frame_duration(19), 19);
    assert_eq!(frame_duration(100), 100);
    assert_eq!(frame_duration(i64::MAX), i64::MAX as u64);
}

#[test]
fn animation_keeps_its_frames() {
    let animation = Animation::new(&[100, 0, -7, 35], true).unwrap();
    assert_eq!(animation.frame_count(), 4);
    assert!(animation.is_looping());
    assert_eq!(animation.duration_ms(0), Some(100));
    assert_eq!(animation.duration_ms(1), Some(20));
    assert_eq!(animation.duration_ms(2), Some(20));
    assert_eq!(animation.duration_ms(3), Some(35));
    assert_eq!(animation.duration_ms(4), None);
    let once = Animation::new(&[5], false).unwrap();
    assert!(!once.is_looping());
    assert_eq!(once.frame_count(), 1);
}

#[test]
fn animation_without_frames_is_an_error() {
    let made = Animation::new(&[], true);
    assert!(matches!(made, Err(DecodeError::NoFrames)));
    let made = Animation::new(&[], false);
    assert_eq!(made.err(), Some(DecodeError::NoFrames));
}

#[test]
fn session_starts_on_the_first_frame() {
    let session = PlaybackSession::start(animated(&[100, 100], true));
    assert_eq!(at(&session), (0, 0));
    assert!(!session.is_cancelled());
    assert!(!session.is_finished());
    assert_eq!(session.state(), PlaybackState::Playing);
}

#[test]
fn looping_ticks_of_250_ms_advance_twice() {
    let mut session = PlaybackSession::start(animated(&[100, 100], true));
    assert_eq!(session.tick(100), Some(1));
    assert_eq!(at(&session), (1, 0));
    assert_eq!(session.tick(100), Some(0));
    assert_eq!(at(&session), (0, 0));
    assert_eq!(session.tick(50), None);
    assert_eq!(at(&session), (0, 50));
}

#[test]
fn looping_position_depends_on_the_sum_of_the_ticks() {
    let cuts: [&[u64]; 6] =
        [&[250], &[125, 125], &[50, 50, 50, 50, 50], &[1, 249], &[249, 1], &[0, 250, 0]];
    for ticks in cuts {
        let mut session = PlaybackSession::start(animated(&[100, 100], true));
        for elapsed in ticks {
            session.tick(*elapsed);
        }
        assert_eq!(at(&session), (0, 50));
    }
}

#[test]
fn tick_that_passes_a_whole_round_shows_nothing_new() {
    let mut session = PlaybackSession::start(animated(&[100, 100], true));
    assert_eq!(session.tick(250), None);
    assert_eq!(at(&session), (0, 50));
    assert_eq!(session.tick(125), Some(1));
    assert_eq!(at(&session), (1, 75));
}

#[test]
fn coarse_tick_catches_up_over_several_frames() {
    let mut session = PlaybackSession::start(animated(&[10, 10, 10, 10], true));
    assert_eq!(session.tick(25), Some(2));
    assert_eq!(at(&session), (2, 5));
    assert_eq!(session.tick(4), None);
    assert_eq!(at(&session), (2, 9));
    assert_eq!(session.tick(1), Some(3));
    assert_eq!(at(&session), (3, 0));
    assert_eq!(session.tick(30), Some(2));
    assert_eq!(at(&session), (2, 0));
}

#[test]
fn tick_of_no_time_changes_nothing() {
    let mut session = PlaybackSession::start(animated(&[10, 10], true));
    assert_eq!(session.tick(0), None);
    assert_eq!(at(&session), (0, 0));
    session.tick(7);
    assert_eq!(session.tick(0), None);
    assert_eq!(at(&session), (0, 7));
}

#[test]
fn animation_that_does_not_loop_rests_on_its_last_frame() {
    let mut session = PlaybackSession::start(animated(&[100, 100], false));
    assert_eq!(session.tick(150), Some(1));
    assert_eq!(at(&session), (1, 50));
    assert!(!session.is_finished());
    assert_eq!(session.tick(60), None);
    assert_eq!(at(&session), (1, 100));
    assert!(session.is_finished());
    for elapsed in [0, 1, 100, 1000, u64::MAX] {
        assert_eq!(session.tick(elapsed), None);
        assert_eq!(at(&session), (1, 100));
        assert!(session.is_finished());
    }
    assert_eq!(session.state(), PlaybackState::Playing);
}

#[test]
fn one_tick_beyond_the_end_rests_at_once() {
    let mut session = PlaybackSession::start(animated(&[30, 40, 50], false));
    assert_eq!(session.tick(120), Some(2));
    assert_eq!(at(&session), (2, 50));
    assert!(session.is_finished());
    assert_eq!(session.tick(5), None);
    let mut short = PlaybackSession::start(animated(&[30, 40, 50], false));
    assert_eq!(short.tick(119), Some(2));
    assert_eq!(at(&short), (2, 49));
    assert!(!short.is_finished());
}

#[test]
fn tick_after_cancel_shows_nothing() {
    let mut session = PlaybackSession::start(animated(&[100, 100], true));
    assert_eq!(session.tick(130), Some(1));
    session.cancel();
    assert!(session.is_cancelled());
    assert!(session.is_finished());
    assert_eq!(session.state(), PlaybackState::Cancelled);
    for elapsed in [0, 70, 100, 5000, u64::MAX] {
        assert_eq!(session.tick(elapsed), None);
        assert_eq!(at(&session), (1, 30));
    }
}

#[test]
fn cancel_twice_is_cancel_once() {
    let mut session = PlaybackSession::start(animated(&[100, 100], false));
    session.tick(10);
    session.cancel();
    session.cancel();
    assert!(session.is_cancelled());
    assert_eq!(at(&session), (0, 10));
    assert_eq!(session.tick(500), None);
    assert_eq!(at(&session), (0, 10));
}

#[test]
fn single_frame_never_shows_another_frame() {
    let mut looping = PlaybackSession::start(animated(&[40], true));
    assert_eq!(looping.tick(100), None);
    assert_eq!(at(&looping), (0, 20));
    assert_eq!(looping.tick(u64::MAX), None);
    assert_eq!(looping.current_index(), 0);
    assert!(!looping.is_finished());
    let mut once = PlaybackSession::start(animated(&[40], false));
    assert_eq!(once.tick(39), None);
    assert_eq!(at(&once), (0, 39));
    assert_eq!(once.tick(1), None);
    assert_eq!(at(&once), (0, 40));
    assert!(once.is_finished());
}

#[test]
fn huge_tick_ends_where_its_remainder_ends() {
    let mut session = PlaybackSession::start(animated(&[1, 2, 3], true));
    // u64::MAX = 6 * 3074457345618258602 + 3: three milliseconds into a round.
    assert_eq!(session.tick(u64::MAX), Some(2));
    assert_eq!(at(&session), (2, 0));
    assert_eq!(session.tick(u64::MAX), Some(0));
    assert_eq!(at(&session), (0, 0));
    // Two frames of 2^63 - 1 ms: a round takes 2^64 - 2 ms, one less than u64::MAX.
    let mut long = PlaybackSession::start(animated(&[i64::MAX, i64::MAX], true));
    assert_eq!(long.tick(u64::MAX), None);
    assert_eq!(at(&long), (0, 1));
    assert_eq!(long.tick(i64::MAX as u64), Some(1));
    assert_eq!(at(&long), (1, 1));
    assert_eq!(long.tick(u64::MAX), None);
    assert_eq!(at(&long), (1, 2));
}

#[test]
fn still_image_needs_no_ticks() {
    let source = ImageSource::Static;
    assert!(!source.is_animated());
    let mut session = PlaybackSession::start(source);
    assert_eq!(session.state(), PlaybackState::Idle);
    assert!(session.is_finished());
    assert_eq!(at(&session), (0, 0));
    assert_eq!(session.tick(1000), None);
    assert_eq!(at(&session), (0, 0));
    session.cancel();
    assert_eq!(session.state(), PlaybackState::Cancelled);
    assert_eq!(session.tick(1000), None);
}

#[test]
fn sessions_of_one_source_run_apart() {
    let source = animated(&[100, 100, 100], true);
    assert!(source.is_animated());
    let mut thumb = PlaybackSession::start(source.clone());
    let mut window = PlaybackSession::start(source);
    assert_eq!(thumb.tick(150), Some(1));
    assert_eq!(at(&window), (0, 0));
    assert_eq!(window.tick(250), Some(2));
    thumb.cancel();
    assert_eq!(window.tick(50), Some(0));
    assert_eq!(at(&thumb), (1, 50));
    assert_eq!(at(&window), (0, 0));
}

#[test]
fn cloned_animation_has_the_same_frames() {
    let animation = Animation::new(&[7, 0, 9], false).unwrap();
    let copy = animation.clone();
    assert_eq!(copy.frame_count(), 3);
    assert!(!copy.is_looping());
    assert_eq!(copy.duration_ms(0), Some(7));
    assert_eq!(copy.duration_ms(1), Some(20));
    assert_eq!(copy.duration_ms(2), Some(9));
    let mut session = PlaybackSession::start(ImageSource::Animated(copy));
    assert_eq!(session.tick(36), Some(2));
    assert_eq!(at(&session), (2, 9));
    assert!(session.is_finished());
}

#[test]
fn minimum_time_paces_frames_without_a_time() {
    let mut session = PlaybackSession::start(animated(&[0, 0, 0], true));
    assert_eq!(session.tick(19), None);
    assert_eq!(session.tick(1), Some(1));
    assert_eq!(session.tick(40), Some(0));
    assert_eq!(at(&session), (0, 0));
}
