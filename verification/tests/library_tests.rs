use wfcue::audio::{
    compare_digests, copy_samples, digest_of, get_flac_info, get_wav_info, hash_samples,
    split_piece, split_samples, verify_samples, AudioFile, AudioFormat, AudioInfo, AudioSpec,
    Duration, SampleFormat, SampleHasher,
};
use wfcue::commands::{merge, merge_file, split};
use wfcue::cue::{
    cue_msf_to_samples, merge_create_cue, merge_cue_name, parse_sheet, render_sheet,
    split_create_cue, split_cue_name, SheetDescriptor, TrackDescriptor,
};
use wfcue::error::Error;
use wfcue::text::{chars_of, extension_of, parse_number, replace_chars, split_chars, stem_of};

fn chars(s: &str) -> Vec<char> {
    s.chars().collect()
}

fn stereo(total: u64) -> AudioInfo {
    AudioInfo {
        spec: AudioSpec {
            channels: 2,
            sample_rate: 44100,
            bits_per_sample: 16,
            sample_format: SampleFormat::Int,
        },
        total_samples: total,
    }
}

fn track(title: &str, performer: Option<&str>, start: Option<&str>, comments: &[&str]) -> (usize, TrackDescriptor) {
    (
        0,
        TrackDescriptor {
            title: title.to_string(),
            performer: performer.map(|p| p.to_string()),
            indices: start.map(|s| (1u8, s.to_string())).into_iter().collect(),
            comments: comments.iter().map(|c| c.to_string()).collect(),
        },
    )
}

fn sheet(tracks: Vec<(usize, TrackDescriptor)>) -> SheetDescriptor {
    SheetDescriptor {
        title: "Album".to_string(),
        performer: "Artist".to_string(),
        comments: vec![],
        files: vec!["output.wav".to_string()],
        tracks,
    }
}

#[test]
fn chars_of_keeps_every_character() {
    assert_eq!(chars_of("a:ß:c"), chars("a:ß:c"));
}

#[test]
fn split_keeps_empty_pieces() {
    assert_eq!(split_chars(&chars("a::b:"), ':'), vec![chars("a"), chars(""), chars("b"), chars("")]);
    assert_eq!(split_chars(&chars(""), ':'), vec![chars("")]);
}

#[test]
fn numbers_follow_the_unsigned_grammar() {
    assert_eq!(parse_number(&chars("007"), 99), Some(7));
    assert_eq!(parse_number(&chars("+42"), 99), Some(42));
    assert_eq!(parse_number(&chars("100"), 99), None);
    assert_eq!(parse_number(&chars(""), 99), None);
    assert_eq!(parse_number(&chars("+"), 99), None);
    assert_eq!(parse_number(&chars("-1"), 99), None);
    assert_eq!(parse_number(&chars("1 "), 99), None);
    assert_eq!(parse_number(&chars("18446744073709551615"), u64::MAX), Some(u64::MAX));
    assert_eq!(parse_number(&chars("18446744073709551616"), u64::MAX), None);
}

#[test]
fn replace_scans_from_the_left() {
    assert_eq!(replace_chars(&chars("aaa"), &chars("aa"), &chars("b")), chars("ba"));
    assert_eq!(replace_chars(&chars("x%t%y%t%"), &chars("%t%"), &chars("12")), chars("x12y12"));
    assert_eq!(replace_chars(&chars("abc"), &chars("zz"), &chars("q")), chars("abc"));
}

#[test]
fn stem_drops_the_last_extension_only() {
    assert_eq!(stem_of(&chars("a.b.wav")), chars("a.b"));
    assert_eq!(stem_of(&chars(".hidden")), chars(".hidden"));
    assert_eq!(stem_of(&chars("plain")), chars("plain"));
    assert_eq!(stem_of(&chars("dot.")), chars("dot"));
}

#[test]
fn extension_decides_the_format_whatever_its_case() {
    assert_eq!(AudioFormat::from_extension("wav"), Ok(AudioFormat::Wav));
    assert_eq!(AudioFormat::from_extension("WaV"), Ok(AudioFormat::Wav));
    assert_eq!(AudioFormat::from_extension("FLAC"), Ok(AudioFormat::Flac));
    assert_eq!(AudioFormat::from_extension("mp3"), Err(Error::UnsupportedFormat));
    assert_eq!(AudioFormat::from_extension(""), Err(Error::UnsupportedFormat));
}

#[test]
fn flac_info_counts_interleaved_samples() {
    let info = get_flac_info(2, 44100, 16, Some(44100)).unwrap();
    assert_eq!(info, stereo(88200));
    assert_eq!(get_flac_info(2, 44100, 16, None), Err(Error::MissingSampleCount));
    assert_eq!(get_flac_info(2, 44100, 16, Some(u64::MAX)), Err(Error::BoundaryOutOfRange));
}

#[test]
fn wav_info_takes_the_header_length() {
    assert_eq!(get_wav_info(stereo(0).spec, 88200), stereo(88200));
}

#[test]
fn digest_is_that_of_the_big_endian_bytes() {
    let streams = vec![vec![1, -2], vec![0x1234_5678]];
    let mut bytes: Vec<u8> = vec![];
    for s in [1i32, -2, 0x1234_5678] {
        bytes.extend_from_slice(&s.to_be_bytes());
    }
    assert_eq!(bytes[4..8], [0xff, 0xff, 0xff, 0xfe]);
    assert_eq!(digest_of(&streams), *blake3::hash(&bytes).as_bytes());
    assert_ne!(digest_of(&streams), *blake3::hash(&[]).as_bytes());
}

fn file(name: &str, samples: &[i32]) -> AudioFile {
    AudioFile { file: name.to_string(), frames: Some(1), samples: samples.to_vec() }
}

#[test]
fn hashing_feeds_the_hasher_in_order() {
    let mut hasher = SampleHasher::new();
    assert_eq!(hasher.finalize(), *blake3::hash(&[]).as_bytes());
    hasher.update(&vec![1, 2]);
    assert_eq!(hash_samples(&file("a.WAV", &[3]), &mut hasher), Ok(()));
    assert_eq!(hash_samples(&file("b.Flac", &[4]), &mut hasher), Ok(()));
    assert_eq!(hasher.finalize(), digest_of(&vec![vec![1, 2, 3, 4]]));
    assert_ne!(hasher.finalize(), digest_of(&vec![vec![4, 3, 2, 1]]));
}

#[test]
fn hashing_refuses_an_unknown_container_and_keeps_the_hasher() {
    let mut hasher = SampleHasher::new();
    hasher.update(&vec![7]);
    let before = hasher.finalize();
    for name in ["a.mp3", "noextension", ".wav", "a.wav.txt", ""] {
        assert_eq!(hash_samples(&file(name, &[1, 2]), &mut hasher), Err(Error::UnsupportedFormat));
        assert_eq!(hasher.finalize(), before);
    }
}

#[test]
fn many_samples_are_taken_in() {
    let samples: Vec<i32> = (0..5000).collect();
    let mut hasher = SampleHasher::new();
    hasher.update(&samples);
    assert_eq!(hasher.finalize(), digest_of(&vec![samples]));
}

#[test]
fn digests_are_compared_byte_by_byte() {
    let a = [7u8; 32];
    let mut b = a;
    assert_eq!(compare_digests(&a, &b), Ok(()));
    b[31] = 8;
    assert_eq!(compare_digests(&a, &b), Err(Error::VerificationMismatch));
}

#[test]
fn verification_compares_the_streams_as_one() {
    let input = vec![file("1.wav", &[1, 2]), file("2.flac", &[3])];
    assert_eq!(verify_samples(&input, &file("o.wav", &[1, 2, 3])), Ok(()));
    assert_eq!(verify_samples(&input, &file("o.wav", &[1, 2])), Err(Error::VerificationMismatch));
    assert_eq!(verify_samples(&vec![], &file("o.wav", &[])), Ok(()));
    assert_eq!(verify_samples(&input, &file("o.ogg", &[1, 2, 3])), Err(Error::UnsupportedFormat));
    let bad = vec![file("1.wav", &[1, 2]), file("2.ape", &[3])];
    assert_eq!(verify_samples(&bad, &file("o.wav", &[1, 2, 3])), Err(Error::UnsupportedFormat));
}

#[test]
fn lowercase_extension_decides() {
    assert_eq!(AudioFormat::from_lowercase("wav"), Ok(AudioFormat::Wav));
    assert_eq!(AudioFormat::from_lowercase("flac"), Ok(AudioFormat::Flac));
    assert_eq!(AudioFormat::from_lowercase("WAV"), Err(Error::UnsupportedFormat));
    assert_eq!(AudioFormat::from_lowercase("wave"), Err(Error::UnsupportedFormat));
    assert_eq!(AudioFormat::from_name("dir.d/Song.FLAC"), Ok(AudioFormat::Flac));
    assert_eq!(AudioFormat::from_name("song"), Err(Error::UnsupportedFormat));
}

#[test]
fn extension_is_what_follows_the_last_dot() {
    assert_eq!(extension_of(&chars("a.b.wav")), Some(chars("wav")));
    assert_eq!(extension_of(&chars("dot.")), Some(chars("")));
    assert_eq!(extension_of(&chars(".hidden")), None);
    assert_eq!(extension_of(&chars("plain")), None);
}

#[test]
fn a_piece_is_cut_where_it_stands() {
    let source = vec![1, 2, 3, 4, 5];
    assert_eq!(split_piece(&source, 1, 3), Ok(vec![2, 3, 4]));
    assert_eq!(split_piece(&source, 5, 0), Ok(vec![]));
    assert_eq!(split_piece(&source, 3, 3), Err(Error::SourceExhausted));
    assert_eq!(split_piece(&source, 6, 0), Err(Error::SourceExhausted));
    assert_eq!(split_piece(&source, 0, u64::MAX), Err(Error::SourceExhausted));
}

#[test]
fn copy_appends() {
    let mut sink = vec![9];
    copy_samples(&vec![1, 2], &mut sink);
    assert_eq!(sink, vec![9, 1, 2]);
}

#[test]
fn merge_then_split_gives_the_streams_back() {
    let files = vec![
        AudioFile { file: "a.wav".to_string(), frames: Some(2), samples: vec![1, 2, 3, 4] },
        AudioFile { file: "b.flac".to_string(), frames: Some(1), samples: vec![5, 6] },
    ];
    let merged = merge(&files).unwrap();
    assert_eq!(merged.samples, vec![1, 2, 3, 4, 5, 6]);
    assert_eq!(
        merged.durations,
        vec![
            Duration { file: "a.wav".to_string(), duration_samples: 2 },
            Duration { file: "b.flac".to_string(), duration_samples: 1 },
        ]
    );
    let boundaries = vec![
        Duration { file: "1".to_string(), duration_samples: 4 },
        Duration { file: "2".to_string(), duration_samples: 2 },
    ];
    assert_eq!(split_samples(&merged.samples, &boundaries), Ok(vec![vec![1, 2, 3, 4], vec![5, 6]]));
}

#[test]
fn merge_needs_every_length() {
    let files = vec![
        AudioFile { file: "a.wav".to_string(), frames: Some(1), samples: vec![1] },
        AudioFile { file: "b.flac".to_string(), frames: None, samples: vec![2] },
    ];
    assert_eq!(merge(&files), Err(Error::MissingSampleCount));
}

#[test]
fn merge_refuses_the_first_bad_file() {
    let wav = AudioFile { file: "a.wav".to_string(), frames: Some(1), samples: vec![1] };
    let mp3 = AudioFile { file: "b.mp3".to_string(), frames: Some(1), samples: vec![2] };
    let blind = AudioFile { file: "c.flac".to_string(), frames: None, samples: vec![3] };
    assert_eq!(merge(&vec![wav.clone(), mp3.clone()]), Err(Error::UnsupportedFormat));
    assert_eq!(merge(&vec![wav.clone(), mp3.clone(), blind.clone()]), Err(Error::UnsupportedFormat));
    assert_eq!(merge(&vec![wav.clone(), blind.clone(), mp3.clone()]), Err(Error::MissingSampleCount));
    let both = AudioFile { file: "d.mp3".to_string(), frames: None, samples: vec![4] };
    assert_eq!(merge(&vec![both]), Err(Error::UnsupportedFormat));
}

#[test]
fn merging_one_file_appends_or_leaves_alone() {
    let mut sink = vec![9];
    let wav = AudioFile { file: "a.WAV".to_string(), frames: Some(2), samples: vec![1, 2] };
    assert_eq!(
        merge_file(&wav, &mut sink),
        Ok(Duration { file: "a.WAV".to_string(), duration_samples: 2 })
    );
    assert_eq!(sink, vec![9, 1, 2]);
    let mp3 = AudioFile { file: "b.mp3".to_string(), frames: Some(1), samples: vec![3] };
    assert_eq!(merge_file(&mp3, &mut sink), Err(Error::UnsupportedFormat));
    assert_eq!(sink, vec![9, 1, 2]);
}

#[test]
fn start_is_the_first_index_one() {
    let indices = vec![(0u8, "00:00:10".to_string()), (1u8, "00:01:01".to_string())];
    assert_eq!(cue_msf_to_samples(&indices, 44100), Ok(44100 + 588));
    assert_eq!(cue_msf_to_samples(&indices, 8000), Ok(8000 + 106));
    assert_eq!(cue_msf_to_samples(&vec![(2u8, "00:00:00".to_string())], 44100), Err(Error::MissingStartIndex));
    assert_eq!(cue_msf_to_samples(&vec![(1u8, "0:0".to_string())], 44100), Err(Error::InvalidTimecode));
}

#[test]
fn annotation_wins_over_positions() {
    let s = sheet(vec![
        track("1", Some("A"), Some("00:00:00"), &["DURATION 100"]),
        track("2", Some("A"), Some("00:01:00"), &[]),
    ]);
    let d = split(&s, &stereo(400_000), &None).unwrap();
    assert_eq!(d[0].duration_samples, 200);
    assert_eq!(d[1].duration_samples, 400_000 - 88_200);
}

#[test]
fn lengths_without_annotations_add_up_to_the_stream() {
    let s = sheet(vec![
        track("1", None, Some("00:00:00"), &[]),
        track("2", None, Some("00:01:37"), &[]),
        track("3", None, Some("00:03:00"), &["COMMENT x"]),
    ]);
    let d = split(&s, &stereo(400_000), &None).unwrap();
    let lengths: Vec<u64> = d.iter().map(|x| x.duration_samples).collect();
    assert_eq!(lengths, vec![2 * 65856, 2 * (132300 - 65856), 400_000 - 2 * 132300]);
    assert_eq!(lengths.iter().sum::<u64>(), 400_000);
    assert_eq!(d[0].file, "01 Artist - 1.wav");
}

#[test]
fn pattern_names_the_files() {
    let s = sheet(vec![track("Song", Some("Band"), Some("00:00:00"), &[])]);
    let d = split(&s, &stereo(10), &Some("%track%. %artist% - %title% (%title%)".to_string())).unwrap();
    assert_eq!(d[0].file, "01. Band - Song (Song).wav");
}

#[test]
fn resolver_errors() {
    let info = stereo(100);
    let missing = sheet(vec![track("1", Some("A"), None, &[])]);
    assert_eq!(split(&missing, &info, &None), Err(Error::MissingStartIndex));
    let bad_note = sheet(vec![track("1", Some("A"), Some("00:00:00"), &["DURATION x"])]);
    assert_eq!(split(&bad_note, &info, &None), Err(Error::MalformedAnnotation));
    let double_space = sheet(vec![track("1", Some("A"), Some("00:00:00"), &["DURATION  5"])]);
    assert_eq!(split(&double_space, &info, &None), Err(Error::MalformedAnnotation));
    let bad_time = sheet(vec![track("1", Some("A"), Some("00:00"), &[])]);
    assert_eq!(split(&bad_time, &info, &None), Err(Error::InvalidTimecode));
    let no_performer = sheet(vec![track("1", None, Some("00:00:00"), &[])]);
    assert_eq!(split(&no_performer, &info, &Some("%artist%".to_string())), Err(Error::MissingPerformer));
    let backwards = sheet(vec![
        track("1", None, Some("00:01:00"), &[]),
        track("2", None, Some("00:00:00"), &[]),
    ]);
    assert_eq!(split(&backwards, &info, &None), Err(Error::BoundaryOutOfRange));
    let beyond = sheet(vec![track("1", None, Some("00:01:00"), &[])]);
    assert_eq!(split(&beyond, &info, &None), Err(Error::BoundaryOutOfRange));
    let huge = sheet(vec![track("1", None, Some("00:00:00"), &["DURATION 18446744073709551615"])]);
    assert_eq!(split(&huge, &info, &None), Err(Error::BoundaryOutOfRange));
}

#[test]
fn sheet_text_is_read_and_refused() {
    assert_eq!(parse_sheet("FILE x"), Err(Error::MalformedDescriptor));
    assert_eq!(parse_sheet("\u{feff}FILE "), Err(Error::MalformedDescriptor));
    assert_eq!(parse_sheet("TITLE \"a\""), Err(Error::MalformedDescriptor));
    assert_eq!(parse_sheet("NONSENSE"), Err(Error::MalformedDescriptor));
    let text = "TITLE \"T\"\nPERFORMER \"P\"\nFILE \"a b.wav\" WAVE\n  TRACK 01 AUDIO\n    TITLE \"x\"\n    INDEX 01 00:00:00";
    let s = parse_sheet(text).unwrap();
    assert_eq!(s.files, vec!["a b.wav".to_string()]);
    assert_eq!(s.tracks[0].1.indices, vec![(1u8, "00:00:00".to_string())]);
    assert_eq!(s.tracks[0].1.performer, None);
    assert_eq!(render_sheet(s), Ok(text.to_string()));
}

#[test]
fn rendering_refuses_a_bad_position() {
    let s = sheet(vec![track("1", None, Some("100:00:00"), &[])]);
    assert_eq!(render_sheet(s), Err(Error::InvalidTimecode));
}

#[test]
fn merged_sheet_needs_starts_below_one_hundred_minutes() {
    let d = vec![
        Duration { file: "a.wav".to_string(), duration_samples: 6000 * 8 },
        Duration { file: "b.wav".to_string(), duration_samples: 8 },
    ];
    assert_eq!(merge_create_cue(&None, &None, &None, "o.wav", &d, 8), Err(Error::InvalidTimecode));
    assert_eq!(merge_create_cue(&None, &None, &None, "o.wav", &d, 0), Err(Error::InvalidTimecode));
    let text = merge_create_cue(&None, &None, &None, "o.wav", &d, 16).unwrap();
    assert!(text.contains("TITLE \"Album\""));
    assert!(text.contains("PERFORMER \"Artist\""));
    assert!(text.contains("INDEX 01 50:00:00"));
    assert!(text.contains("REM DURATION 48000"));
}

#[test]
fn split_sheet_needs_a_track_for_each_boundary() {
    let s = sheet(vec![track("1", None, Some("00:00:00"), &[])]);
    let d = vec![
        Duration { file: "1.wav".to_string(), duration_samples: 1 },
        Duration { file: "2.wav".to_string(), duration_samples: 1 },
    ];
    assert_eq!(split_create_cue(&s, &d), Err(Error::MissingTrack));
}

#[test]
fn sheet_names() {
    assert_eq!(merge_cue_name("Artist - Album.wav"), "Artist - Album.cue");
    assert_eq!(split_cue_name("output.cue"), "output_multiple.cue");
}

#[test]
fn empty_pattern_replaces_nothing() {
    assert_eq!(replace_chars(&chars("abc"), &chars(""), &chars("x")), chars("abc"));
}
