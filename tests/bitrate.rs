use video_reducer::{
    bitrate_arg, compute_video_bitrate, parse_duration, plan_reduction, target_size_bytes,
    ReduceError, AUDIO_BITRATE, MIN_VIDEO_BITRATE,
};

#[test]
fn test_compute_video_bitrate() {
    // 100 seconds, 100 MB: 838,860,800 bits over 100 s is 8,388,608 bps, less the audio.
    let duration_us = 100 * 1_000_000;
    let target_bytes = 100 * 1024 * 1024;
    let audio_bitrate = 128_000;
    let video_bitrate = compute_video_bitrate(duration_us, target_bytes, audio_bitrate);
    let expected = 8_388_608.0 - 128_000.0;
    assert!((video_bitrate as f64 - expected).abs() < 1_000.0);
}

#[test]
fn test_minimum_video_bitrate() {
    let duration_us = 10_000 * 1_000_000;
    let target_bytes = 50 * 1024 * 1024;
    let audio_bitrate = 128_000;
    let video_bitrate = compute_video_bitrate(duration_us, target_bytes, audio_bitrate);
    assert_eq!(video_bitrate, 100_000);
}

#[test]
fn test_parse_duration() {
    let example_output = "123.456\n";
    let duration_us = parse_duration(example_output.as_bytes()).unwrap();
    let duration = duration_us as f64 / 1_000_000.0;
    assert!((duration - 123.456).abs() < 0.001);
}

#[test]
fn exact_bitrate_for_hundred_seconds() {
    assert_eq!(compute_video_bitrate(100_000_000, 104_857_600, 128_000), 8_260_608);
}

#[test]
fn bitrate_truncates_toward_zero() {
    // 8,000,000 bits over 3 s is 2,666,666.67 bps.
    assert_eq!(compute_video_bitrate(3_000_000, 1_000_000, 0), 2_666_666);
}

#[test]
fn bitrate_never_below_floor() {
    for duration_us in [1u64, 1_000, 1_000_000, 1_000_000_000, u64::MAX] {
        for target in [0u64, 1, 52_428_800, 104_857_600, u64::MAX] {
            for audio in [0u64, 128_000, u64::MAX] {
                assert!(compute_video_bitrate(duration_us, target, audio) >= MIN_VIDEO_BITRATE);
            }
        }
    }
}

#[test]
fn bitrate_at_floor_boundary() {
    // Exactly 100,000 bps of video after the audio.
    assert_eq!(compute_video_bitrate(1_000_000, 28_500, 128_000), 100_000);
    assert_eq!(compute_video_bitrate(1_000_000, 28_625, 128_000), 101_000);
    assert_eq!(compute_video_bitrate(1_000_000, 0, 0), 100_000);
}

#[test]
fn bitrate_saturates_at_largest_value() {
    assert_eq!(compute_video_bitrate(1, u64::MAX, 0), u64::MAX);
}

#[test]
fn bitrate_grows_with_target() {
    let mut last = 0u64;
    for target in (0..200u64).map(|m| m * 1_048_576) {
        let b = compute_video_bitrate(100_000_000, target, AUDIO_BITRATE);
        assert!(b >= last);
        last = b;
    }
    assert!(
        compute_video_bitrate(100_000_000, 100 * 1_048_576, AUDIO_BITRATE)
            > compute_video_bitrate(100_000_000, 50 * 1_048_576, AUDIO_BITRATE)
    );
}

#[test]
fn parse_exact_microseconds() {
    assert_eq!(parse_duration(b"123.456\n"), Ok(123_456_000));
    assert_eq!(parse_duration(b"  42 \r\n"), Ok(42_000_000));
    assert_eq!(parse_duration(b"0.5"), Ok(500_000));
    assert_eq!(parse_duration(b".25"), Ok(250_000));
    assert_eq!(parse_duration(b"7."), Ok(7_000_000));
    assert_eq!(parse_duration(b"+1.000001"), Ok(1_000_001));
    assert_eq!(parse_duration(b"1.23456789"), Ok(1_234_567));
    assert_eq!(parse_duration(b"\t60.000000\n"), Ok(60_000_000));
}

#[test]
fn parse_rejects_malformed_output() {
    for out in [
        &b""[..],
        b"\n",
        b"N/A\n",
        b".",
        b"+",
        b"-5",
        b"1.2.3",
        b"12a",
        b"1 2",
        b"1e3",
    ] {
        assert_eq!(parse_duration(out), Err(ReduceError::ProbeFailure));
    }
}

#[test]
fn parse_rejects_non_positive_duration() {
    assert_eq!(parse_duration(b"0"), Err(ReduceError::ProbeFailure));
    assert_eq!(parse_duration(b"0.000000"), Err(ReduceError::ProbeFailure));
    assert_eq!(parse_duration(b"0.0000009"), Err(ReduceError::ProbeFailure));
}

#[test]
fn parse_largest_duration() {
    assert_eq!(parse_duration(b"18446744073709.551615"), Ok(u64::MAX));
    assert_eq!(parse_duration(b"18446744073709.551616"), Err(ReduceError::ProbeFailure));
    assert_eq!(
        parse_duration(b"99999999999999999999999999999"),
        Err(ReduceError::ProbeFailure)
    );
}

#[test]
fn size_must_be_offered() {
    assert_eq!(target_size_bytes(50), Ok(52_428_800));
    assert_eq!(target_size_bytes(100), Ok(104_857_600));
    for size in [0u64, 1, 49, 51, 75, 99, 101, 1024, u64::MAX] {
        assert_eq!(target_size_bytes(size), Err(ReduceError::InvalidSizeArgument));
    }
}

#[test]
fn bitrate_arg_in_kilobits() {
    assert_eq!(bitrate_arg(8_260_608), "8260k");
    assert_eq!(bitrate_arg(100_000), "100k");
    assert_eq!(bitrate_arg(999), "0k");
    assert_eq!(bitrate_arg(u64::MAX), "18446744073709551k");
}

#[test]
fn plan_for_probe_output() {
    let plan = plan_reduction(b"100.000000\n", 104_857_600).unwrap();
    assert_eq!(plan.duration_us, 100_000_000);
    assert_eq!(plan.video_bitrate, 8_260_608);
    assert_eq!(plan.video_bitrate_arg, "8260k");
    let long = plan_reduction(b"10000\n", 52_428_800).unwrap();
    assert_eq!(long.video_bitrate, 100_000);
    assert_eq!(long.video_bitrate_arg, "100k");
}

#[test]
fn plan_fails_on_bad_probe_output() {
    assert_eq!(plan_reduction(b"N/A\n", 104_857_600), Err(ReduceError::ProbeFailure));
    assert_eq!(plan_reduction(b"0\n", 104_857_600), Err(ReduceError::ProbeFailure));
}
