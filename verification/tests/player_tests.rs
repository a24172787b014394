use ascii_frames::player::{
    collect_frame_contents, frame_interval_ns, sleep_duration_ns, PlayError, Player, PlayerAction,
};

#[test]
fn interval_is_the_rounded_reciprocal_rate() {
    // 10 fps: 100 ms per frame.
    assert_eq!(frame_interval_ns(10, 1), Ok(100_000_000));
    // 30 fps: 33.333... ms, rounded to the nearest nanosecond.
    assert_eq!(frame_interval_ns(30, 1), Ok(33_333_333));
    // 29.97 fps given as 2997/100.
    assert_eq!(frame_interval_ns(2997, 100), Ok(33_366_700));
    // 0 fps is rejected before playback starts.
    assert_eq!(frame_interval_ns(0, 1), Err(PlayError::InvalidRate));
    assert_eq!(frame_interval_ns(10, 0), Err(PlayError::InvalidRate));
}

#[test]
fn sleep_absorbs_render_time_and_clamps_at_zero() {
    let interval = frame_interval_ns(10, 1).unwrap();
    // Fast render: the scheduler sleeps out the remainder of the interval.
    assert_eq!(sleep_duration_ns(interval, 30_000_000), 70_000_000);
    // Instant render: the whole interval is slept.
    assert_eq!(sleep_duration_ns(interval, 0), 100_000_000);
    // Slow render: no negative sleep, the frame is simply late.
    assert_eq!(sleep_duration_ns(interval, 150_000_000), 0);
}

#[test]
fn three_frames_at_ten_fps_schedule_three_hundred_ms() {
    // With 3 pre-loaded frames at 10 fps, each frame sleeps
    // max(0, 100 ms - render time); the scheduled wall time is 300 ms plus
    // whatever render overhead ran past an interval (none here).
    let interval = frame_interval_ns(10, 1).unwrap();
    let render_ns = [20_000_000u64, 35_000_000, 5_000_000];
    let mut total: u64 = 0;
    for r in render_ns {
        total += r + sleep_duration_ns(interval, r);
    }
    assert_eq!(total, 300_000_000);
}

fn drain_actions(player: &mut Player, steps: usize) -> Vec<PlayerAction> {
    let mut actions = Vec::new();
    for _ in 0..steps {
        actions.push(player.next());
    }
    actions
}

#[test]
fn a_single_pass_renders_in_order_then_stops_audio() {
    let mut p = Player::new(3, false, false).unwrap();
    let actions = drain_actions(&mut p, 6);
    assert_eq!(
        actions,
        vec![
            PlayerAction::Render { index: 0 },
            PlayerAction::Render { index: 1 },
            PlayerAction::Render { index: 2 },
            PlayerAction::StopAudio,
            PlayerAction::Done,
            PlayerAction::Done,
        ]
    );
}

#[test]
fn looping_with_sync_restarts_audio_at_every_boundary() {
    let mut p = Player::new(2, true, true).unwrap();
    let actions = drain_actions(&mut p, 8);
    assert_eq!(
        actions,
        vec![
            // First pass begins with the audio at offset 0.
            PlayerAction::RestartAudio,
            PlayerAction::Render { index: 0 },
            PlayerAction::Render { index: 1 },
            PlayerAction::InterLoopDelay,
            // Every further loop boundary restarts the audio again.
            PlayerAction::RestartAudio,
            PlayerAction::Render { index: 0 },
            PlayerAction::Render { index: 1 },
            PlayerAction::InterLoopDelay,
        ]
    );
}

#[test]
fn looping_without_sync_never_touches_audio() {
    let mut p = Player::new(2, true, false).unwrap();
    let actions = drain_actions(&mut p, 9);
    assert!(actions.iter().all(|a| *a != PlayerAction::RestartAudio));
    assert!(actions.iter().all(|a| *a != PlayerAction::StopAudio));
    assert_eq!(
        &actions[..4],
        &[
            PlayerAction::Render { index: 0 },
            PlayerAction::Render { index: 1 },
            PlayerAction::InterLoopDelay,
            PlayerAction::Render { index: 0 },
        ]
    );
}

#[test]
fn an_empty_sequence_is_the_distinct_nothing_to_play_error() {
    // Discovery of a root with no usable entries succeeds with an empty
    // sequence; playback is what refuses it, with its own error.
    assert_eq!(Player::new(0, false, false), Err(PlayError::NoFrames));
    assert_eq!(Player::new(0, true, true), Err(PlayError::NoFrames));
    assert!(Player::new(1, false, false).is_ok());
}

#[test]
fn loading_is_fail_fast() {
    let all = vec![
        Some("frame a".to_string()),
        Some("frame b".to_string()),
    ];
    assert_eq!(
        collect_frame_contents(all),
        Ok(vec!["frame a".to_string(), "frame b".to_string()])
    );
    let broken = vec![
        Some("frame a".to_string()),
        None,
        Some("frame c".to_string()),
        None,
    ];
    // The first unreadable frame aborts loading; nothing partial plays.
    assert_eq!(collect_frame_contents(broken), Err(1));
    assert_eq!(collect_frame_contents(vec![]), Ok(vec![]));
}
