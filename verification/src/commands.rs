//! The two operations: merging streams into one, and resolving the
//! boundaries along which a merged stream is split again.
use vstd::prelude::*;
use crate::audio::{
    AudioFile, AudioFormat, AudioInfo, Duration, DurationView, concat_all, copy_samples,
    duration_lengths, durations_view, file_streams, format_of_name, formats_known, split_stream,
    total_length,
};
use crate::cue::{
    SheetDescriptor, TrackDescriptor, TrackView, cue_msf_to_samples, duration_note, merge_sheet,
    option_view, start_position, texts_view, tracks_view,
};
use crate::error::Error;
use crate::text::{
    chars_of, fields_view, parse_number, parse_unsigned, push_all, push_two_digits, replace_all,
    replace_chars, split_chars, split_on, starts_with, string_from_chars, two_digits,
};

verus! {

/// What a merge gives: the merged stream, and the name and length in frames
/// of each file that went into it.
#[derive(Debug, Clone, PartialEq, Eq)]
pub struct MergedAudio {
    pub samples: Vec<i32>,
    pub durations: Vec<Duration>,
}

/// Whether every file states its length.
pub open spec fn lengths_known(inputs: Seq<AudioFile>) -> bool {
    forall|i: int| 0 <= i < inputs.len() ==> (#[trigger] inputs[i]).frames is Some
}

/// The name and stated length of each file.
pub open spec fn file_durations(inputs: Seq<AudioFile>) -> Seq<DurationView> {
    Seq::new(
        inputs.len(),
        |i: int|
            DurationView {
                file: inputs[i].file@,
                duration_samples: inputs[i].frames->0 as nat,
            },
    )
}

/// What merging one file gives: the name and stated length of the file.
/// `UnsupportedFormat` where the extension of its name names no container;
/// else `MissingSampleCount` where it states no length.
pub open spec fn merge_file_spec(file: AudioFile) -> Result<DurationView, Error> {
    if format_of_name(file.file@) is None {
        Err(Error::UnsupportedFormat)
    } else if file.frames is None {
        Err(Error::MissingSampleCount)
    } else {
        Ok(DurationView { file: file.file@, duration_samples: file.frames->0 as nat })
    }
}

/// What merging the first `k` files gives, in order; the first file that is
/// refused decides the error.
pub open spec fn merge_durations(inputs: Seq<AudioFile>, k: int) -> Result<Seq<DurationView>, Error>
    decreases k,
{
    if k <= 0 {
        Ok(Seq::<DurationView>::empty())
    } else {
        match merge_durations(inputs, k - 1) {
            Err(e) => Err(e),
            Ok(before) => match merge_file_spec(inputs[k - 1]) {
                Err(e) => Err(e),
                Ok(duration) => Ok(before.push(duration)),
            },
        }
    }
}

/// Merges one file into `sink`: its samples follow what `sink` held. A file
/// that is refused leaves `sink` as it was.
pub fn merge_file(file: &AudioFile, sink: &mut Vec<i32>) -> (r: Result<Duration, Error>)
    ensures
        match merge_file_spec(*file) {
            Ok(duration) => r is Ok && r->Ok_0@ == duration && final(sink)@ == old(sink)@
                + file.samples@,
            Err(e) => r is Err && r->Err_0 == e && final(sink)@ == old(sink)@,
        },
{
    match AudioFormat::from_name(file.file.as_str()) {
        Ok(_) => {},
        Err(e) => {
            return Err(e);
        },
    }
    let frames = match file.frames {
        Some(frames) => frames,
        None => {
            return Err(Error::MissingSampleCount);
        },
    };
    copy_samples(&file.samples, sink);
    Ok(Duration { file: file.file.clone(), duration_samples: frames })
}

/// Merges the files into one stream, in the order given. The files are left
/// as they are. The first file that is refused ends the merge.
pub fn merge(inputs: &Vec<AudioFile>) -> (r: Result<MergedAudio, Error>)
    ensures
        match r {
            Ok(merged) => formats_known(inputs@) && lengths_known(inputs@) && merged.samples@
                == concat_all(file_streams(inputs@)) && durations_view(merged.durations@)
                == file_durations(inputs@),
            Err(e) => merge_durations(inputs@, inputs@.len() as int) == Err::<
                Seq<DurationView>,
                Error,
            >(e),
        },
        r is Ok <==> merge_durations(inputs@, inputs@.len() as int) is Ok,
{
    let mut samples: Vec<i32> = Vec::new();
    let mut durations: Vec<Duration> = Vec::new();
    let mut i: usize = 0;
    assert(file_streams(inputs@).take(0) == Seq::<Seq<i32>>::empty());
    assert(durations_view(durations@) =~= Seq::<DurationView>::empty());
    while i < inputs.len()
        invariant
            i <= inputs.len(),
            samples@ == concat_all(file_streams(inputs@).take(i as int)),
            durations.len() == i,
            merge_durations(inputs@, i as int) == Ok::<Seq<DurationView>, Error>(
                durations_view(durations@),
            ),
            forall|k: int| 0 <= k < i ==> (#[trigger] inputs@[k]).frames is Some,
            forall|k: int| 0 <= k < i ==> format_of_name((#[trigger] inputs@[k]).file@) is Some,
            forall|k: int| 0 <= k < i ==> (#[trigger] durations@[k])@ == file_durations(inputs@)[k],
        decreases inputs.len() - i,
    {
        let ghost before = durations_view(durations@);
        proof {
            lemma_merge_stops(inputs@, i + 1, inputs@.len() as int);
        }
        let duration = match merge_file(&inputs[i], &mut samples) {
            Ok(duration) => duration,
            Err(e) => {
                return Err(e);
            },
        };
        proof {
            let next = file_streams(inputs@).take(i + 1);
            assert(next.drop_last() == file_streams(inputs@).take(i as int));
            assert(next.last() == inputs@[i as int].samples@);
        }
        let ghost added = duration@;
        durations.push(duration);
        assert(durations_view(durations@) =~= before.push(added));
        i += 1;
    }
    assert(file_streams(inputs@).take(inputs.len() as int) == file_streams(inputs@));
    assert(durations_view(durations@) =~= file_durations(inputs@));
    Ok(MergedAudio { samples, durations })
}

/// Where the first `k` files are refused, all of them are, with the same
/// error.
proof fn lemma_merge_stops(inputs: Seq<AudioFile>, k: int, n: int)
    requires
        0 <= k <= n,
    ensures
        merge_durations(inputs, k) is Err ==> merge_durations(inputs, n) == merge_durations(
            inputs,
            k,
        ),
    decreases n - k,
{
    if k < n {
        lemma_merge_stops(inputs, k, n - 1);
    }
}

/// The comment that records a track's length: the first that starts with
/// `DURATION `.
pub open spec fn duration_comment(comments: Seq<Seq<char>>) -> Option<Seq<char>>
    decreases comments.len(),
{
    if comments.len() == 0 {
        None
    } else if "DURATION "@.is_prefix_of(comments[0]) {
        Some(comments[0])
    } else {
        duration_comment(comments.drop_first())
    }
}

/// The number of frames that a length comment records: its second word,
/// where that is an unsigned number that 64 bits can hold.
pub open spec fn annotated_frames(comment: Seq<char>) -> Option<nat> {
    let words = split_on(comment, ' ');
    if words.len() < 2 {
        None
    } else {
        parse_unsigned(words[1], u64::MAX as nat)
    }
}

/// A length, where 64 bits can hold it.
pub open spec fn counted(length: int) -> Result<nat, Error> {
    if 0 <= length <= u64::MAX {
        Ok(length as nat)
    } else {
        Err(Error::BoundaryOutOfRange)
    }
}

/// The length of track `i` in interleaved samples.
///
/// A length comment decides, whatever the positions say: the frames it
/// records, times the channels. Without one the track reaches from its own
/// start to that of the next track. The last track reaches to the end of
/// the stream.
pub open spec fn track_duration(tracks: Seq<(nat, TrackView)>, i: int, info: AudioInfo) -> Result<
    nat,
    Error,
> {
    let channels = info.spec.channels as int;
    let rate = info.spec.sample_rate as nat;
    match duration_comment(tracks[i].1.comments) {
        Some(comment) => match annotated_frames(comment) {
            Some(frames) => counted(frames * channels),
            None => Err(Error::MalformedAnnotation),
        },
        None => positional_duration(tracks, i, info),
    }
}

/// The length of track `i` as the positions alone give it: from its own
/// start to that of the next track, or to the end of the stream's whole
/// frames for the last track.
pub open spec fn positional_duration(tracks: Seq<(nat, TrackView)>, i: int, info: AudioInfo) -> Result<
    nat,
    Error,
> {
    let channels = info.spec.channels as int;
    let rate = info.spec.sample_rate as nat;
    match start_position(tracks[i].1.indices, rate) {
        Err(e) => Err(e),
        Ok(start) => if i + 1 < tracks.len() {
            match start_position(tracks[i + 1].1.indices, rate) {
                Err(e) => Err(e),
                Ok(next) => if next < start {
                    Err(Error::BoundaryOutOfRange)
                } else {
                    counted((next - start) * channels)
                },
            }
        } else if channels == 0 || info.total_samples / (channels as u64) < start {
            Err(Error::BoundaryOutOfRange)
        } else {
            Ok(((info.total_samples as int / channels - start) * channels) as nat)
        },
    }
}

/// The name of the file of track `number`. With a pattern: the pattern,
/// with `%track%` replaced by the number in two digits, then `%artist%` by
/// the performer, then `%title%` by the title. Without one: number,
/// performer (or `Artist`) and title. Either way `.wav` is added.
pub open spec fn track_file_name(format: Option<Seq<char>>, number: nat, track: TrackView) -> Result<
    Seq<char>,
    Error,
> {
    match format {
        Some(pattern) => match track.performer {
            Some(performer) => Ok(
                replace_all(
                    replace_all(
                        replace_all(pattern, "%track%"@, two_digits(number)),
                        "%artist%"@,
                        performer,
                    ),
                    "%title%"@,
                    track.title,
                ) + ".wav"@,
            ),
            None => Err(Error::MissingPerformer),
        },
        None => Ok(
            two_digits(number) + " "@ + (match track.performer {
                Some(performer) => performer,
                None => "Artist"@,
            }) + " - "@ + track.title + ".wav"@,
        ),
    }
}

/// The boundaries of the first `k` tracks, in order; the first track that
/// fails decides the error, its length before its name.
pub open spec fn split_boundaries(
    tracks: Seq<(nat, TrackView)>,
    k: int,
    info: AudioInfo,
    format: Option<Seq<char>>,
) -> Result<Seq<DurationView>, Error>
    decreases k,
{
    if k <= 0 {
        Ok(Seq::<DurationView>::empty())
    } else {
        match split_boundaries(tracks, k - 1, info, format) {
            Err(e) => Err(e),
            Ok(before) => match track_duration(tracks, k - 1, info) {
                Err(e) => Err(e),
                Ok(length) => match track_file_name(format, k as nat, tracks[k - 1].1) {
                    Err(e) => Err(e),
                    Ok(file) => Ok(before.push(DurationView { file, duration_samples: length })),
                },
            },
        }
    }
}

/// The position of the first comment that starts with `DURATION `.
fn find_duration_comment(comments: &Vec<String>) -> (r: Option<usize>)
    ensures
        match r {
            Some(k) => k < comments.len() && duration_comment(texts_view(comments@)) == Some(
                comments@[k as int]@,
            ),
            None => duration_comment(texts_view(comments@)) is None,
        },
{
    let tag = chars_of("DURATION ");
    let ghost all = texts_view(comments@);
    let mut i: usize = 0;
    assert(all.skip(0) == all);
    while i < comments.len()
        invariant
            i <= comments.len(),
            tag@ == "DURATION "@,
            all == texts_view(comments@),
            duration_comment(all) == duration_comment(all.skip(i as int)),
        decreases comments.len() - i,
    {
        let ghost rest = all.skip(i as int);
        assert(rest[0] == comments@[i as int]@);
        let line = chars_of(comments[i].as_str());
        if starts_with(&line, &tag) {
            return Some(i);
        }
        assert(rest.drop_first() == all.skip(i + 1));
        i += 1;
    }
    None
}

/// The number of frames that a length comment records.
fn annotation_frames(comment: &str) -> (r: Option<u64>)
    ensures
        match r {
            Some(frames) => annotated_frames(comment@) == Some(frames as nat),
            None => annotated_frames(comment@) is None,
        },
{
    let chars = chars_of(comment);
    let words = split_chars(&chars, ' ');
    assert(fields_view(words@).len() == words.len());
    if words.len() < 2 {
        return None;
    }
    assert(fields_view(words@)[1] == words[1]@);
    parse_number(&words[1], u64::MAX)
}

/// A length in frames as a length in interleaved samples.
fn interleaved(frames: u64, channels: u16) -> (r: Result<u64, Error>)
    ensures
        match r {
            Ok(length) => counted(frames * channels) == Ok::<nat, Error>(length as nat),
            Err(e) => counted(frames * channels) == Err::<nat, Error>(e),
        },
{
    match frames.checked_mul(channels as u64) {
        Some(length) => Ok(length),
        None => Err(Error::BoundaryOutOfRange),
    }
}

/// The length of track `i` in interleaved samples.
fn resolve_duration(tracks: &Vec<(usize, TrackDescriptor)>, i: usize, info: &AudioInfo) -> (r:
    Result<u64, Error>)
    requires
        i < tracks.len(),
    ensures
        match r {
            Ok(length) => track_duration(tracks_view(tracks@), i as int, *info) == Ok::<nat, Error>(
                length as nat,
            ),
            Err(e) => track_duration(tracks_view(tracks@), i as int, *info) == Err::<nat, Error>(e),
        },
{
    let track = &tracks[i].1;
    let channels = info.spec.channels;
    let rate = info.spec.sample_rate;
    assert(tracks_view(tracks@)[i as int].1 == track@);
    match find_duration_comment(&track.comments) {
        Some(k) => match annotation_frames(track.comments[k].as_str()) {
            Some(frames) => interleaved(frames, channels),
            None => Err(Error::MalformedAnnotation),
        },
        None => {
            let start = match cue_msf_to_samples(&track.indices, rate) {
                Ok(start) => start,
                Err(e) => {
                    return Err(e);
                },
            };
            if i + 1 < tracks.len() {
                assert(tracks_view(tracks@)[i + 1].1 == tracks@[i + 1].1@);
                let next = match cue_msf_to_samples(&tracks[i + 1].1.indices, rate) {
                    Ok(next) => next,
                    Err(e) => {
                        return Err(e);
                    },
                };
                if next < start {
                    Err(Error::BoundaryOutOfRange)
                } else {
                    interleaved(next - start, channels)
                }
            } else if channels == 0 || info.total_samples / (channels as u64) < start {
                Err(Error::BoundaryOutOfRange)
            } else {
                let frames: u64 = info.total_samples / (channels as u64) - start;
                assert(frames * channels <= info.total_samples) by (nonlinear_arith)
                    requires
                        channels > 0,
                        frames <= info.total_samples / (channels as u64),
                ;
                Ok(frames * (channels as u64))
            }
        },
    }
}

/// The name of the file of track `number`.
fn name_track(format: &Option<String>, number: u64, track: &TrackDescriptor) -> (r: Result<
    String,
    Error,
>)
    ensures
        match r {
            Ok(name) => track_file_name(option_view(*format), number as nat, track@) == Ok::<
                Seq<char>,
                Error,
            >(name@),
            Err(e) => track_file_name(option_view(*format), number as nat, track@) == Err::<
                Seq<char>,
                Error,
            >(e),
        },
{
    let mut digits: Vec<char> = Vec::new();
    push_two_digits(&mut digits, number);
    assert(digits@ == two_digits(number as nat));
    let title = chars_of(track.title.as_str());
    let suffix = chars_of(".wav");
    match format {
        Some(pattern) => {
            let performer = match &track.performer {
                Some(performer) => chars_of(performer.as_str()),
                None => {
                    return Err(Error::MissingPerformer);
                },
            };
            let with_number = replace_chars(&chars_of(pattern.as_str()), &chars_of("%track%"), &digits);
            let with_performer = replace_chars(&with_number, &chars_of("%artist%"), &performer);
            let mut name = replace_chars(&with_performer, &chars_of("%title%"), &title);
            push_all(&mut name, &suffix);
            Ok(string_from_chars(&name))
        },
        None => {
            let performer = match &track.performer {
                Some(performer) => chars_of(performer.as_str()),
                None => chars_of("Artist"),
            };
            let mut name = digits;
            push_all(&mut name, &chars_of(" "));
            push_all(&mut name, &performer);
            push_all(&mut name, &chars_of(" - "));
            push_all(&mut name, &title);
            push_all(&mut name, &suffix);
            Ok(string_from_chars(&name))
        },
    }
}

/// The boundaries along which the stream of a sheet is split: for each
/// track, in order, the name of its file and its length in interleaved
/// samples. `format` is the pattern of the file names, if there is one.
pub fn split(sheet: &SheetDescriptor, info: &AudioInfo, format: &Option<String>) -> (r: Result<
    Vec<Duration>,
    Error,
>)
    ensures
        match r {
            Ok(durations) => split_boundaries(
                sheet@.tracks,
                sheet@.tracks.len() as int,
                *info,
                option_view(*format),
            ) == Ok::<Seq<DurationView>, Error>(durations_view(durations@)),
            Err(e) => split_boundaries(
                sheet@.tracks,
                sheet@.tracks.len() as int,
                *info,
                option_view(*format),
            ) == Err::<Seq<DurationView>, Error>(e),
        },
{
    let ghost tracks = sheet@.tracks;
    let ghost pattern = option_view(*format);
    let mut durations: Vec<Duration> = Vec::new();
    let mut i: usize = 0;
    assert(durations_view(durations@) =~= Seq::<DurationView>::empty());
    while i < sheet.tracks.len()
        invariant
            i <= sheet.tracks.len(),
            tracks == sheet@.tracks,
            tracks == tracks_view(sheet.tracks@),
            pattern == option_view(*format),
            split_boundaries(tracks, i as int, *info, pattern) == Ok::<Seq<DurationView>, Error>(
                durations_view(durations@),
            ),
        decreases sheet.tracks.len() - i,
    {
        let ghost before = durations_view(durations@);
        proof {
            lemma_boundaries_stop(tracks, i + 1, tracks.len() as int, *info, pattern);
        }
        let length = match resolve_duration(&sheet.tracks, i, info) {
            Ok(length) => length,
            Err(e) => {
                return Err(e);
            },
        };
        assert(tracks[i as int].1 == sheet.tracks@[i as int].1@);
        let file = match name_track(format, (i + 1) as u64, &sheet.tracks[i].1) {
            Ok(file) => file,
            Err(e) => {
                return Err(e);
            },
        };
        durations.push(Duration { file, duration_samples: length });
        assert(durations_view(durations@) =~= before.push(
            DurationView { file: file@, duration_samples: length as nat },
        ));
        i += 1;
    }
    Ok(durations)
}

/// Where the first `k` tracks fail, all of them fail, with the same error.
proof fn lemma_boundaries_stop(
    tracks: Seq<(nat, TrackView)>,
    k: int,
    n: int,
    info: AudioInfo,
    format: Option<Seq<char>>,
)
    requires
        0 <= k <= n,
    ensures
        split_boundaries(tracks, k, info, format) is Err ==> split_boundaries(
            tracks,
            n,
            info,
            format,
        ) == split_boundaries(tracks, k, info, format),
    decreases n - k,
{
    if k < n {
        lemma_boundaries_stop(tracks, k, n - 1, info, format);
    }
}

/// A length comment decides the length of its track, whatever the index
/// positions of the track and of its neighbour say.
pub proof fn lemma_annotation_precedence(
    tracks: Seq<(nat, TrackView)>,
    i: int,
    info: AudioInfo,
    comment: Seq<char>,
    frames: nat,
)
    requires
        0 <= i < tracks.len(),
        duration_comment(tracks[i].1.comments) == Some(comment),
        annotated_frames(comment) == Some(frames),
    ensures
        track_duration(tracks, i, info) == counted(frames * info.spec.channels),
{
}

/// Whether no length comment disagrees with the positions: every track is
/// as long as its positions alone say. A sheet without length comments is
/// such a sheet.
pub open spec fn annotations_agree(tracks: Seq<(nat, TrackView)>, info: AudioInfo) -> bool {
    forall|i: int|
        0 <= i < tracks.len() ==> #[trigger] track_duration(tracks, i, info) == positional_duration(
            tracks,
            i,
            info,
        )
}

/// Whether no track carries a length comment.
pub open spec fn unannotated(tracks: Seq<(nat, TrackView)>) -> bool {
    forall|i: int| 0 <= i < tracks.len() ==> duration_comment(#[trigger] tracks[i].1.comments) is None
}

/// On a sheet without length comments no comment disagrees.
pub proof fn lemma_unannotated_agree(tracks: Seq<(nat, TrackView)>, info: AudioInfo)
    requires
        unannotated(tracks),
    ensures
        annotations_agree(tracks, info),
{
    assert forall|i: int| 0 <= i < tracks.len() implies #[trigger] track_duration(tracks, i, info)
        == positional_duration(tracks, i, info) by {
        assert(duration_comment(tracks[i].1.comments) is None);
    }
}

/// The sample at which track `i` starts; zero where its index 1 says none.
pub open spec fn track_start(tracks: Seq<(nat, TrackView)>, i: int, info: AudioInfo) -> nat {
    match start_position(tracks[i].1.indices, info.spec.sample_rate as nat) {
        Ok(start) => start,
        Err(_) => 0,
    }
}

/// Where no length comment disagrees with the positions, the tracks before
/// track `k` are together as long as the way from the start of the first
/// track to the start of track `k`.
proof fn lemma_lengths_telescope(
    tracks: Seq<(nat, TrackView)>,
    k: int,
    info: AudioInfo,
    format: Option<Seq<char>>,
)
    requires
        annotations_agree(tracks, info),
        0 <= k < tracks.len(),
        split_boundaries(tracks, k + 1, info, format) is Ok,
    ensures
        split_boundaries(tracks, k, info, format) is Ok,
        track_start(tracks, 0, info) <= track_start(tracks, k, info),
        start_position(tracks[k].1.indices, info.spec.sample_rate as nat) is Ok,
        total_length(duration_lengths(split_boundaries(tracks, k, info, format)->Ok_0)) == (
        track_start(tracks, k, info) - track_start(tracks, 0, info)) * info.spec.channels,
    decreases k,
{
    let channels = info.spec.channels as int;
    assert(track_duration(tracks, k, info) == positional_duration(tracks, k, info));
    assert(track_duration(tracks, k, info) is Ok);
    if k == 0 {
        assert(duration_lengths(Seq::<DurationView>::empty()) == Seq::<nat>::empty());
    } else {
        lemma_lengths_telescope(tracks, k - 1, info, format);
        assert(track_duration(tracks, k - 1, info) == positional_duration(tracks, k - 1, info));
        let before = split_boundaries(tracks, k - 1, info, format)->Ok_0;
        let all = split_boundaries(tracks, k, info, format)->Ok_0;
        let length = track_duration(tracks, k - 1, info)->Ok_0;
        let first = track_start(tracks, 0, info) as int;
        let from = track_start(tracks, k - 1, info) as int;
        let to = track_start(tracks, k, info) as int;
        assert(length == (to - from) * channels);
        assert(duration_lengths(all).drop_last() == duration_lengths(before));
        assert(duration_lengths(all).last() == length);
        assert((from - first) * channels + (to - from) * channels == (to - first) * channels)
            by (nonlinear_arith);
    }
}

/// Where no length comment disagrees with the positions, the resolved
/// lengths add up to the whole frames of the stream that lie behind the
/// start of the first track. Where the first track starts at zero and the
/// stream holds whole frames only, they add up to the stream's length
/// exactly.
pub proof fn lemma_residual_total(
    tracks: Seq<(nat, TrackView)>,
    info: AudioInfo,
    format: Option<Seq<char>>,
)
    requires
        tracks.len() > 0,
        annotations_agree(tracks, info),
        split_boundaries(tracks, tracks.len() as int, info, format) is Ok,
    ensures
        info.spec.channels > 0,
        total_length(
            duration_lengths(split_boundaries(tracks, tracks.len() as int, info, format)->Ok_0),
        ) == (info.total_samples as int / (info.spec.channels as int) - track_start(tracks, 0, info))
            * info.spec.channels,
        track_start(tracks, 0, info) == 0 && info.total_samples as int % (info.spec.channels as int)
            == 0 ==> total_length(
            duration_lengths(split_boundaries(tracks, tracks.len() as int, info, format)->Ok_0),
        ) == info.total_samples,
{
    let n = tracks.len() as int;
    let channels = info.spec.channels as int;
    let total = info.total_samples as int;
    lemma_lengths_telescope(tracks, n - 1, info, format);
    assert(track_duration(tracks, n - 1, info) == positional_duration(tracks, n - 1, info));
    let before = split_boundaries(tracks, n - 1, info, format)->Ok_0;
    let all = split_boundaries(tracks, n, info, format)->Ok_0;
    let length = track_duration(tracks, n - 1, info)->Ok_0;
    let first = track_start(tracks, 0, info) as int;
    let last = track_start(tracks, n - 1, info) as int;
    assert(channels > 0);
    assert(length == (total / channels - last) * channels);
    assert(duration_lengths(all).drop_last() == duration_lengths(before));
    assert(duration_lengths(all).last() == length);
    assert((last - first) * channels + (total / channels - last) * channels == (total / channels
        - first) * channels) by (nonlinear_arith);
    assert(total % channels == 0 ==> (total / channels) * channels == total) by (nonlinear_arith)
        requires
            channels > 0,
    ;
}

/// The length comment of a merged track is read back as the frames it
/// records.
proof fn lemma_duration_note(frames: nat)
    requires
        frames <= u64::MAX,
    ensures
        duration_comment(seq![duration_note(frames)]) == Some(duration_note(frames)),
        annotated_frames(duration_note(frames)) == Some(frames),
{
    let digits = crate::text::decimal_digits(frames);
    let note = duration_note(frames);
    reveal_strlit("DURATION ");
    reveal_strlit("DURATION");
    assert("DURATION "@ == "DURATION"@ + seq![' ']);
    assert(note == "DURATION"@ + seq![' '] + digits);
    assert("DURATION "@.is_prefix_of(note));
    assert(seq![note][0] == note);
    assert(!"DURATION"@.contains(' '));
    crate::text::lemma_digits_contain_no(frames, ' ');
    crate::text::lemma_split_plain("DURATION"@, ' ');
    crate::text::lemma_split_tail("DURATION"@, digits, ' ');
    crate::text::lemma_parse_decimal_digits(frames, u64::MAX as nat);
}

/// The sheet of a merge resolves, for its first `k` tracks, to the lengths
/// of the streams that went into the merge.
proof fn lemma_merge_boundaries(
    inputs: Seq<AudioFile>,
    title: Option<Seq<char>>,
    performer: Option<Seq<char>>,
    comments: Seq<Seq<char>>,
    output: Seq<char>,
    info: AudioInfo,
    format: Option<Seq<char>>,
    k: int,
)
    requires
        lengths_known(inputs),
        forall|i: int|
            0 <= i < inputs.len() ==> (#[trigger] inputs[i]).samples@.len() == inputs[i].frames->0
                * info.spec.channels,
        0 <= k <= inputs.len(),
    ensures
        split_boundaries(
            merge_sheet(
                title,
                performer,
                comments,
                output,
                file_durations(inputs),
                info.spec.sample_rate as nat,
            ).tracks,
            k,
            info,
            format,
        ) is Ok,
        duration_lengths(
            split_boundaries(
                merge_sheet(
                    title,
                    performer,
                    comments,
                    output,
                    file_durations(inputs),
                    info.spec.sample_rate as nat,
                ).tracks,
                k,
                info,
                format,
            )->Ok_0,
        ) == crate::audio::stream_lengths(file_streams(inputs)).take(k),
    decreases k,
{
    let tracks = merge_sheet(
        title,
        performer,
        comments,
        output,
        file_durations(inputs),
        info.spec.sample_rate as nat,
    ).tracks;
    let lengths = crate::audio::stream_lengths(file_streams(inputs));
    if k == 0 {
        assert(duration_lengths(Seq::<DurationView>::empty()) == lengths.take(0));
    } else {
        lemma_merge_boundaries(inputs, title, performer, comments, output, info, format, k - 1);
        let input = inputs[k - 1];
        let frames = input.frames->0 as nat;
        assert(input.frames is Some);
        lemma_duration_note(frames);
        assert(tracks[k - 1].1.comments == seq![duration_note(frames)]);
        assert(input.samples@.len() == input.samples.len());
        assert(track_duration(tracks, k - 1, info) == Ok::<nat, Error>(input.samples@.len()));
        assert(track_file_name(format, k as nat, tracks[k - 1].1) is Ok);
        let before = split_boundaries(tracks, k - 1, info, format)->Ok_0;
        let all = split_boundaries(tracks, k, info, format)->Ok_0;
        assert(duration_lengths(all) == duration_lengths(before).push(input.samples@.len()));
        assert(lengths.take(k) == lengths.take(k - 1).push(lengths[k - 1]));
    }
}

/// Merging and splitting again gives every stream back. For files of one
/// shape whose headers state their true lengths: the sheet of the merge
/// resolves to boundaries, whatever the pattern of the file names; the
/// boundaries are as long as the streams that went in; and the merged
/// stream, split along them, gives those streams back, each whole and in
/// its place.
pub proof fn lemma_merge_split_round_trip(
    inputs: Seq<AudioFile>,
    title: Option<Seq<char>>,
    performer: Option<Seq<char>>,
    comments: Seq<Seq<char>>,
    output: Seq<char>,
    info: AudioInfo,
    format: Option<Seq<char>>,
)
    requires
        lengths_known(inputs),
        forall|i: int|
            0 <= i < inputs.len() ==> (#[trigger] inputs[i]).samples@.len() == inputs[i].frames->0
                * info.spec.channels,
    ensures
        ({
            let sheet = merge_sheet(
                title,
                performer,
                comments,
                output,
                file_durations(inputs),
                info.spec.sample_rate as nat,
            );
            let boundaries = split_boundaries(sheet.tracks, sheet.tracks.len() as int, info, format);
            &&& boundaries is Ok
            &&& duration_lengths(boundaries->Ok_0) == crate::audio::stream_lengths(
                file_streams(inputs),
            )
            &&& split_stream(concat_all(file_streams(inputs)), duration_lengths(boundaries->Ok_0))
                == Some(file_streams(inputs))
        }),
{
    let lengths = crate::audio::stream_lengths(file_streams(inputs));
    lemma_merge_boundaries(
        inputs,
        title,
        performer,
        comments,
        output,
        info,
        format,
        inputs.len() as int,
    );
    assert(lengths.take(inputs.len() as int) == lengths);
    crate::audio::lemma_split_concat(file_streams(inputs));
}

} // verus!
