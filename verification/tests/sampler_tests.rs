use ascii_frames::sampler::{
    bucket_of_pts, sampling_threshold, SampleDecision, Sampler, SamplerConfig, SamplerError,
};

#[test]
fn threshold_is_rounded_rate_ratio() {
    // 30 fps source sampled at 10 fps: every 3rd tick.
    assert_eq!(sampling_threshold(30, 1, 10, 1), Ok(3));
    // 25 fps source at 10 fps: 2.5 rounds half-up to 3.
    assert_eq!(sampling_threshold(25, 1, 10, 1), Ok(3));
    // 24 fps source at 10 fps: 2.4 rounds down to 2.
    assert_eq!(sampling_threshold(24, 1, 10, 1), Ok(2));
    // Fractional rates: 30000/1001 source at 29.97 target is ratio 1.
    assert_eq!(sampling_threshold(30000, 1001, 2997, 100), Ok(1));
}

#[test]
fn threshold_is_clamped_to_one() {
    // Target rate at or above the source rate keeps every valid frame.
    assert_eq!(sampling_threshold(10, 1, 30, 1), Ok(1));
    assert_eq!(sampling_threshold(10, 1, 10, 1), Ok(1));
    // 10 fps source at 25 fps: ratio 0.4 rounds to 0, clamped to 1.
    assert_eq!(sampling_threshold(10, 1, 25, 1), Ok(1));
}

#[test]
fn threshold_rejects_zero_rates() {
    assert_eq!(sampling_threshold(0, 1, 10, 1), Err(SamplerError::InvalidRate));
    assert_eq!(sampling_threshold(30, 0, 10, 1), Err(SamplerError::InvalidRate));
    assert_eq!(sampling_threshold(30, 1, 0, 1), Err(SamplerError::InvalidRate));
    assert_eq!(sampling_threshold(30, 1, 10, 0), Err(SamplerError::InvalidRate));
}

#[test]
fn bucket_is_floored_seconds() {
    // Time base 1/90000: 90001 ticks is just past the 1-second mark.
    assert_eq!(bucket_of_pts(0, 1, 90000), 0);
    assert_eq!(bucket_of_pts(89999, 1, 90000), 0);
    assert_eq!(bucket_of_pts(90000, 1, 90000), 1);
    assert_eq!(bucket_of_pts(90001, 1, 90000), 1);
    assert_eq!(bucket_of_pts(450000, 1, 90000), 5);
    // Time base 1001/30000 (NTSC): frame 300 sits at 10.01 seconds.
    assert_eq!(bucket_of_pts(300, 1001, 30000), 10);
}

#[test]
fn config_rejects_zero_time_base() {
    assert_eq!(SamplerConfig::new(3, 0, 90000), Err(SamplerError::InvalidTimeBase));
    assert_eq!(SamplerConfig::new(3, 1, 0), Err(SamplerError::InvalidTimeBase));
    assert_eq!(SamplerConfig::new(0, 1, 90000), Err(SamplerError::InvalidRate));
    let c = SamplerConfig::new(3, 1, 90000).unwrap();
    assert_eq!(c.threshold, 3);
    assert_eq!(c.tb_num, 1);
    assert_eq!(c.tb_den, 90000);
}

fn sampler(threshold: u64, tb_num: u32, tb_den: u32) -> Sampler {
    Sampler::new(SamplerConfig::new(threshold, tb_num, tb_den).unwrap())
}

#[test]
fn negative_timestamps_are_never_kept() {
    let mut s = sampler(1, 1, 1);
    assert_eq!(s.observe(-1), SampleDecision::Skip);
    assert_eq!(s.observe(-100), SampleDecision::Skip);
    assert_eq!(s.scanned, 2);
    // The first non-negative timestamp is kept.
    assert_eq!(
        s.observe(0),
        SampleDecision::Keep { second: 0, frame: 1, new_second: true }
    );
}

#[test]
fn keep_needs_threshold_distance() {
    // Threshold 3, time base 1/10: buckets are floor(pts / 10).
    let mut s = sampler(3, 1, 10);
    assert_eq!(
        s.observe(0),
        SampleDecision::Keep { second: 0, frame: 1, new_second: true }
    );
    assert_eq!(s.observe(1), SampleDecision::Skip);
    assert_eq!(s.observe(2), SampleDecision::Skip);
    assert_eq!(
        s.observe(3),
        SampleDecision::Keep { second: 0, frame: 2, new_second: false }
    );
    // A late frame (pts below the last kept one) is skipped.
    assert_eq!(s.observe(2), SampleDecision::Skip);
    assert_eq!(
        s.observe(6),
        SampleDecision::Keep { second: 0, frame: 3, new_second: false }
    );
    assert_eq!(s.scanned, 6);
}

#[test]
fn frame_numbers_restart_per_bucket() {
    // Threshold 4, time base 1/10: two frames land in each second.
    let mut s = sampler(4, 1, 10);
    assert_eq!(
        s.observe(0),
        SampleDecision::Keep { second: 0, frame: 1, new_second: true }
    );
    assert_eq!(
        s.observe(4),
        SampleDecision::Keep { second: 0, frame: 2, new_second: false }
    );
    assert_eq!(
        s.observe(10),
        SampleDecision::Keep { second: 1, frame: 1, new_second: true }
    );
    assert_eq!(
        s.observe(14),
        SampleDecision::Keep { second: 1, frame: 2, new_second: false }
    );
    assert_eq!(
        s.observe(20),
        SampleDecision::Keep { second: 2, frame: 1, new_second: true }
    );
}

#[test]
fn staying_in_a_bucket_never_resets_its_counter() {
    // Re-entering the current bucket reports new_second = false and the
    // counter keeps climbing; nothing errors.
    let mut s = sampler(1, 1, 100);
    for expected in 1..=50u64 {
        match s.observe(expected as i64) {
            SampleDecision::Keep { second, frame, new_second } => {
                assert_eq!(second, 0);
                assert_eq!(frame, expected);
                assert_eq!(new_second, expected == 1);
            }
            SampleDecision::Skip => panic!("frame {expected} unexpectedly skipped"),
        }
    }
    assert_eq!(s.count, 50);
}

#[test]
fn sparse_streams_may_skip_whole_buckets() {
    let mut s = sampler(1, 1, 1);
    assert_eq!(
        s.observe(0),
        SampleDecision::Keep { second: 0, frame: 1, new_second: true }
    );
    // Jumping straight to second 3: bucket numbers are sparse, each new
    // bucket restarts numbering at 1.
    assert_eq!(
        s.observe(3),
        SampleDecision::Keep { second: 3, frame: 1, new_second: true }
    );
}
