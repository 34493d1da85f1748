use wfcue::audio::{
    split_samples, verify_samples, AudioFile, AudioInfo, AudioSpec, Duration, SampleFormat,
};
use wfcue::commands::{merge, split};
use wfcue::cue::{merge_create_cue, parse_sheet, split_create_cue};
use wfcue::error::Error;

fn tone(i: u32) -> Vec<i32> {
    let mut samples = Vec::new();
    for x in 0..88200u32 {
        let t = x as f32 / 44100.0;
        let sample = (t * 440.0 + i as f32 * 2.0 * std::f32::consts::PI).sin();
        samples.push((sample * i16::MAX as f32) as i16 as i32);
    }
    samples
}

fn inputs() -> Vec<AudioFile> {
    (1..=3)
        .map(|i| AudioFile { file: format!("{i}.wav"), frames: Some(44100), samples: tone(i) })
        .collect()
}

fn named(names: &[String], streams: &[Vec<i32>]) -> Vec<AudioFile> {
    names
        .iter()
        .zip(streams.iter())
        .map(|(n, s)| AudioFile { file: n.clone(), frames: None, samples: s.clone() })
        .collect()
}

fn output(samples: &[i32]) -> AudioFile {
    AudioFile { file: "output.wav".to_string(), frames: None, samples: samples.to_vec() }
}

fn spec() -> AudioSpec {
    AudioSpec { channels: 2, sample_rate: 44100, bits_per_sample: 16, sample_format: SampleFormat::Int }
}

const MERGED_SHEET: &str = r#"REM COMPOSER "TEST"
TITLE "Album"
PERFORMER "Artist"
FILE "output.wav" WAVE
  TRACK 01 AUDIO
    TITLE "1"
    PERFORMER "Artist"
    INDEX 01 00:00:00
    REM DURATION 44100
  TRACK 02 AUDIO
    TITLE "2"
    PERFORMER "Artist"
    INDEX 01 00:01:00
    REM DURATION 44100
  TRACK 03 AUDIO
    TITLE "3"
    PERFORMER "Artist"
    INDEX 01 00:02:00
    REM DURATION 44100"#;

const TIMECODE_SHEET: &str = r#"REM COMPOSER "TEST"
TITLE "Album"
PERFORMER "Artist"
FILE "output.wav" WAVE
  TRACK 01 AUDIO
    TITLE "1"
    PERFORMER "Artist"
    INDEX 01 00:00:00
  TRACK 02 AUDIO
    TITLE "2"
    PERFORMER "Artist"
    INDEX 01 00:01:00
  TRACK 03 AUDIO
    TITLE "3"
    PERFORMER "Artist"
    INDEX 01 00:02:00"#;

fn split_sheet_text(note: &str) -> String {
    format!(
        r#"REM COMPOSER "TEST"
TITLE "Album"
PERFORMER "Artist"
FILE "01 Artist - 1.wav" WAVE
  TRACK 01 AUDIO
    TITLE "1"
    PERFORMER "Artist"
    INDEX 01 00:00:00{note}
FILE "02 Artist - 2.wav" WAVE
  TRACK 02 AUDIO
    TITLE "2"
    PERFORMER "Artist"
    INDEX 01 00:00:00{note}
FILE "03 Artist - 3.wav" WAVE
  TRACK 03 AUDIO
    TITLE "3"
    PERFORMER "Artist"
    INDEX 01 00:00:00{note}"#
    )
}

fn run_merge() -> (Vec<i32>, String) {
    let files = inputs();
    let merged = merge(&files).unwrap();
    assert_eq!(merged.samples.len(), 3 * 88200);
    assert_eq!(verify_samples(&files, &output(&merged.samples)), Ok(()));
    let text = merge_create_cue(
        &Some("Album".to_string()),
        &Some("Artist".to_string()),
        &Some(vec![r#"COMPOSER "TEST""#.to_string()]),
        "output.wav",
        &merged.durations,
        44100,
    )
    .unwrap();
    (merged.samples, text)
}

fn run_split(sheet_text: &str, note: &str) {
    let (merged, _) = run_merge();
    let sheet = parse_sheet(sheet_text).unwrap();
    assert_eq!(sheet.files[0], "output.wav");
    let info = AudioInfo { spec: spec(), total_samples: merged.len() as u64 };
    let durations = split(&sheet, &info, &None).unwrap();
    let names: Vec<&str> = durations.iter().map(|d| d.file.as_str()).collect();
    assert_eq!(names, vec!["01 Artist - 1.wav", "02 Artist - 2.wav", "03 Artist - 3.wav"]);
    let lengths: Vec<u64> = durations.iter().map(|d| d.duration_samples).collect();
    assert_eq!(lengths, vec![88200, 88200, 88200]);
    let pieces = split_samples(&merged, &durations).unwrap();
    let names: Vec<String> = durations.iter().map(|d| d.file.clone()).collect();
    assert_eq!(verify_samples(&named(&names, &pieces), &output(&merged)), Ok(()));
    let sources: Vec<Vec<i32>> = inputs().into_iter().map(|f| f.samples).collect();
    assert_eq!(pieces, sources);
    assert_eq!(split_create_cue(&sheet, &durations).unwrap(), split_sheet_text(note));
}

#[test]
fn test_wav_merge() {
    let (_, text) = run_merge();
    assert!(text == MERGED_SHEET);
}

#[test]
fn test_wav_split() {
    run_split(MERGED_SHEET, "\n    REM DURATION 44100");
}

#[test]
fn test_wav_split_msf() {
    run_split(TIMECODE_SHEET, "");
}

#[test]
fn corrupted_sample_fails_verification() {
    let (merged, text) = run_merge();
    let sheet = parse_sheet(&text).unwrap();
    let info = AudioInfo { spec: spec(), total_samples: merged.len() as u64 };
    let durations = split(&sheet, &info, &None).unwrap();
    let mut pieces = split_samples(&merged, &durations).unwrap();
    pieces[1][1000] ^= 1;
    let names: Vec<String> = durations.iter().map(|d| d.file.clone()).collect();
    assert_eq!(
        verify_samples(&named(&names, &pieces), &output(&merged)),
        Err(Error::VerificationMismatch)
    );
}

#[test]
fn split_stops_where_the_stream_ends() {
    let durations = vec![
        Duration { file: "a.wav".to_string(), duration_samples: 3 },
        Duration { file: "b.wav".to_string(), duration_samples: 3 },
    ];
    assert_eq!(split_samples(&vec![1, 2, 3, 4, 5], &durations), Err(Error::SourceExhausted));
    assert_eq!(
        split_samples(&vec![1, 2, 3, 4, 5, 6, 7], &durations),
        Ok(vec![vec![1, 2, 3], vec![4, 5, 6]])
    );
}
