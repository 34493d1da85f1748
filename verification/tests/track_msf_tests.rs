use wfcue::track_msf::{TrackMSF, TrackMSFParseError};

#[test]
fn parses_a_plain_timecode() {
    let t = TrackMSF::try_from("01:02:03").unwrap();
    assert_eq!(t.minutes(), 1);
    assert_eq!(t.seconds(), 2);
    assert_eq!(t.fractions(), 3);
}

#[test]
fn rejects_a_field_of_one_hundred() {
    assert_eq!(
        TrackMSF::try_from("100:00:00"),
        Err(TrackMSFParseError::InvalidTimeStamp("100:00:00".to_string()))
    );
}

#[test]
fn formats_with_two_digits() {
    assert_eq!(TrackMSF::new(44100 * 61 + 588, 44100).to_string(), "01:01:01");
}

#[test]
fn rounds_to_the_nearest_frame() {
    let t = TrackMSF::new(44100 + 294, 44100);
    assert_eq!((t.minutes(), t.seconds(), t.fractions()), (0, 1, 1));
    let t = TrackMSF::new(44100 + 293, 44100);
    assert_eq!((t.minutes(), t.seconds(), t.fractions()), (0, 1, 0));
    let t = TrackMSF::new(44099, 44100);
    assert_eq!((t.minutes(), t.seconds(), t.fractions()), (0, 0, 75));
}

#[test]
fn minutes_stop_at_255() {
    let t = TrackMSF::new(u64::MAX, 1);
    assert_eq!(t.minutes(), 255);
    assert_eq!(t.to_string().len(), 9);
}

#[test]
fn timecode_lies_within_a_frame() {
    for n in (0..5_999_999u64).step_by(7919) {
        let t = TrackMSF::new(n, 1000);
        let frames = t.to_duration_frames() as i64;
        assert!((frames * 1000 - 75 * n as i64).abs() * 2 <= 1000);
    }
}

#[test]
fn text_round_trip() {
    for (m, s, f) in [(0u8, 0u8, 0u8), (99, 59, 74), (7, 8, 9)] {
        let text = format!("{m:02}:{s:02}:{f:02}");
        let t = TrackMSF::try_from(&text).unwrap();
        assert_eq!(t.to_string(), text);
        assert_eq!(t.to_duration_frames(), (m as u32 * 60 + s as u32) * 75 + f as u32);
    }
    assert_eq!(TrackMSF::try_from("+1:02:3").unwrap().to_string(), "01:02:03");
}

#[test]
fn rejects_wrong_shapes() {
    for bad in ["", "1:2", "1:2:3:4", "a:b:c", "1:2:", "1: 2:3", "-1:0:0", "256:0:0"] {
        assert_eq!(
            TrackMSF::try_from(bad),
            Err(TrackMSFParseError::InvalidTimeStamp(bad.to_string()))
        );
    }
}

#[test]
fn samples_round_down() {
    let t = TrackMSF::try_from("00:00:01").unwrap();
    assert_eq!(t.to_samples(44100), 588);
    assert_eq!(t.to_samples(8000), 106);
    assert_eq!(TrackMSF::try_from("99:99:99").unwrap().to_samples(u32::MAX), 453024u64 * u32::MAX as u64 / 75);
}

#[test]
fn error_says_what_was_refused() {
    let e = TrackMSF::try_from("1:2").unwrap_err();
    assert_eq!(e.to_string(), "Invalid timestamp: 1:2");
}
