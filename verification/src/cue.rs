//! Cue sheets: the descriptor of an album's tracks, read from and written
//! to sheet text, and built anew after a merge or a split.
use cue_rw::{CUEFile, CUEParseError, CUETimeStamp, CUETrack};
use vstd::prelude::*;
use crate::audio::{Duration, DurationView, durations_view};
use crate::error::Error;
use crate::text::{
    chars_of, decimal_digits, fields_view, file_stem, push_all, push_decimal, split_chars, split_on,
    starts_with, stem_of, string_from_chars,
};
use crate::track_msf::{
    Msf, TrackMSF, lemma_text_round_trip, lemma_time_fields, lemma_time_zero, msf_of_time,
    msf_samples, msf_text, parse_msf,
};

verus! {

/// One track of a sheet.
#[derive(Debug, Clone, PartialEq, Eq)]
pub struct TrackDescriptor {
    pub title: String,
    pub performer: Option<String>,
    /// Index numbers with their positions, each position as sheet text of
    /// the form `mm:ss:ff`. Index 1 is where the track starts.
    pub indices: Vec<(u8, String)>,
    /// The track's comment lines, without the leading `REM`.
    pub comments: Vec<String>,
}

/// A cue sheet.
#[derive(Debug, Clone, PartialEq, Eq)]
pub struct SheetDescriptor {
    pub title: String,
    pub performer: String,
    /// The sheet's own comment lines, without the leading `REM`.
    pub comments: Vec<String>,
    /// The audio files, in order.
    pub files: Vec<String>,
    /// The tracks in order, each with the position in `files` of the file
    /// that holds it.
    pub tracks: Vec<(usize, TrackDescriptor)>,
}

/// What a [`TrackDescriptor`] holds, as plain values.
pub struct TrackView {
    pub title: Seq<char>,
    pub performer: Option<Seq<char>>,
    pub indices: Seq<(u8, Seq<char>)>,
    pub comments: Seq<Seq<char>>,
}

/// What a [`SheetDescriptor`] holds, as plain values.
pub struct SheetView {
    pub title: Seq<char>,
    pub performer: Seq<char>,
    pub comments: Seq<Seq<char>>,
    pub files: Seq<Seq<char>>,
    pub tracks: Seq<(nat, TrackView)>,
}

/// The views of a list of texts.
pub open spec fn texts_view(texts: Seq<String>) -> Seq<Seq<char>> {
    Seq::new(texts.len(), |i: int| texts[i]@)
}

/// The views of a list of indices.
pub open spec fn indices_view(indices: Seq<(u8, String)>) -> Seq<(u8, Seq<char>)> {
    Seq::new(indices.len(), |i: int| (indices[i].0, indices[i].1@))
}

/// The view of a text that may be absent.
pub open spec fn option_view(text: Option<String>) -> Option<Seq<char>> {
    match text {
        Some(t) => Some(t@),
        None => None,
    }
}

/// The views of a list of tracks.
pub open spec fn tracks_view(tracks: Seq<(usize, TrackDescriptor)>) -> Seq<(nat, TrackView)> {
    Seq::new(tracks.len(), |i: int| (tracks[i].0 as nat, tracks[i].1@))
}

impl View for TrackDescriptor {
    type V = TrackView;

    open spec fn view(&self) -> TrackView {
        TrackView {
            title: self.title@,
            performer: option_view(self.performer),
            indices: indices_view(self.indices@),
            comments: texts_view(self.comments@),
        }
    }
}

impl View for SheetDescriptor {
    type V = SheetView;

    open spec fn view(&self) -> SheetView {
        SheetView {
            title: self.title@,
            performer: self.performer@,
            comments: texts_view(self.comments@),
            files: texts_view(self.files@),
            tracks: tracks_view(self.tracks@),
        }
    }
}

/// `s` without a leading byte order mark.
pub open spec fn without_mark(s: Seq<char>) -> Seq<char> {
    if s.len() > 0 && s[0] == '\u{feff}' {
        s.drop_first()
    } else {
        s
    }
}

/// Whether a line names a file and nothing after it: `FILE `, then text
/// without a space.
pub open spec fn file_line_is_short(line: Seq<char>) -> bool {
    "FILE "@.is_prefix_of(line) && !line.skip(5).contains(' ')
}

/// Whether every `FILE` line of a sheet text has a second word after the
/// file's name. Only such text can be handed to the sheet reader.
pub open spec fn file_lines_complete(text: Seq<char>) -> bool {
    let lines = split_on(without_mark(text), '\n');
    forall|i: int| 0 <= i < lines.len() ==> !file_line_is_short(#[trigger] lines[i])
}

/// The sheet that a text stands for, as `cue_rw` reads it; `None` where it
/// refuses the text.
pub uninterp spec fn sheet_of_text(text: Seq<char>) -> Option<SheetView>;

/// The text of a sheet, as `cue_rw` writes it; `None` where it refuses one
/// of the sheet's index positions.
pub uninterp spec fn text_of_sheet(sheet: SheetView) -> Option<Seq<char>>;

/// Whether every index position of every track is a timecode.
pub open spec fn positions_valid(sheet: SheetView) -> bool {
    forall|i: int, j: int|
        0 <= i < sheet.tracks.len() && 0 <= j < sheet.tracks[i].1.indices.len() ==> parse_msf(
            #[trigger] sheet.tracks[i].1.indices[j].1,
        ) is Some
}

/// The error of the sheet reader.
#[verifier::external_type_specification]
#[verifier::external_body]
pub struct ExCueParseError(CUEParseError);

/// `CUEFile::try_from` on sheet text, the sheet handed out field by field
/// and each index position as the text that `CUETimeStamp` writes. The
/// result depends on the text alone. A sheet that was read names at least
/// one file. Text with a `FILE` line of one word is left out: the reader
/// does not return on it.
#[verifier::external_body]
fn read_sheet(text: &str) -> (r: Result<SheetDescriptor, CUEParseError>)
    requires
        file_lines_complete(text@),
    ensures
        match r {
            Ok(sheet) => sheet_of_text(text@) == Some(sheet@) && sheet.files.len() > 0,
            Err(_) => sheet_of_text(text@) is None,
        },
{
    let cue = CUEFile::try_from(text)?;
    let mut tracks = Vec::new();
    for (file, t) in cue.tracks {
        let indices = t.indices.iter().map(|(n, ts)| (*n, ts.to_string())).collect();
        let (title, performer, comments) = (t.title, t.performer, t.comments);
        tracks.push((file, TrackDescriptor { title, performer, indices, comments }));
    }
    let (title, performer, comments, files) = (cue.title, cue.performer, cue.comments, cue.files);
    Ok(SheetDescriptor { title, performer, comments, files, tracks })
}

/// `CUEFile::to_string` on a sheet built field by field, each index
/// position read by `CUETimeStamp::try_from`. The result depends on the
/// sheet alone. It fails exactly where an index position is not of the form
/// `mm:ss:ff` with fields up to 99.
#[verifier::external_body]
fn write_sheet(sheet: SheetDescriptor) -> (r: Result<String, CUEParseError>)
    ensures
        match r {
            Ok(text) => text_of_sheet(sheet@) == Some(text@),
            Err(_) => text_of_sheet(sheet@) is None,
        },
        r is Ok <==> positions_valid(sheet@),
{
    let mut tracks = Vec::new();
    for (file, t) in sheet.tracks {
        let mut indices = Vec::new();
        for (n, ts) in t.indices {
            indices.push((n, CUETimeStamp::try_from(ts.as_str())?));
        }
        let (title, performer, comments) = (t.title, t.performer, t.comments);
        tracks.push((file, CUETrack { title, performer, indices, comments, ..Default::default() }));
    }
    let (title, performer, comments, files) = (sheet.title, sheet.performer, sheet.comments, sheet.files);
    Ok(CUEFile { title, performer, comments, files, tracks, ..Default::default() }.to_string())
}

/// Whether a line holds `FILE `, then text without a space.
fn line_is_short(line: &Vec<char>) -> (r: bool)
    ensures
        r == file_line_is_short(line@),
{
    let tag = chars_of("FILE ");
    proof {
        reveal_strlit("FILE ");
    }
    if !starts_with(line, &tag) {
        return false;
    }
    let mut i: usize = 5;
    while i < line.len()
        invariant
            5 <= i <= line.len(),
            forall|j: int| 0 <= j < i - 5 ==> line@.skip(5)[j] != ' ',
        decreases line.len() - i,
    {
        if line[i] == ' ' {
            assert(line@.skip(5)[i - 5] == ' ');
            return false;
        }
        i += 1;
    }
    true
}

/// Whether every `FILE` line of the text has a second word.
fn text_is_readable(text: &str) -> (r: bool)
    ensures
        r == file_lines_complete(text@),
{
    let mut chars = chars_of(text);
    if chars.len() > 0 && chars[0] == '\u{feff}' {
        let ghost whole = chars@;
        chars.remove(0);
        assert(chars@ == whole.drop_first());
    }
    let lines = split_chars(&chars, '\n');
    let ghost views = fields_view(lines@);
    let mut i: usize = 0;
    while i < lines.len()
        invariant
            i <= lines.len(),
            views == fields_view(lines@),
            views == split_on(without_mark(text@), '\n'),
            forall|j: int| 0 <= j < i ==> !file_line_is_short(#[trigger] views[j]),
        decreases lines.len() - i,
    {
        if line_is_short(&lines[i]) {
            assert(file_line_is_short(views[i as int]));
            return false;
        }
        i += 1;
    }
    true
}

/// What reading a sheet text gives: the sheet, or `MalformedDescriptor`
/// where a `FILE` line lacks its second word or the reader refuses the text.
pub open spec fn parse_sheet_spec(text: Seq<char>) -> Result<SheetView, Error> {
    if file_lines_complete(text) && sheet_of_text(text) is Some {
        Ok(sheet_of_text(text)->0)
    } else {
        Err(Error::MalformedDescriptor)
    }
}

/// Reads a cue sheet from its text.
pub fn parse_sheet(text: &str) -> (r: Result<SheetDescriptor, Error>)
    ensures
        match r {
            Ok(sheet) => parse_sheet_spec(text@) == Ok::<SheetView, Error>(sheet@)
                && sheet.files.len() > 0,
            Err(e) => parse_sheet_spec(text@) == Err::<SheetView, Error>(e),
        },
{
    if !text_is_readable(text) {
        return Err(Error::MalformedDescriptor);
    }
    match read_sheet(text) {
        Ok(sheet) => Ok(sheet),
        Err(_) => Err(Error::MalformedDescriptor),
    }
}

/// What writing a sheet gives: its text, or `InvalidTimecode` where an
/// index position is no timecode.
pub open spec fn render_sheet_spec(sheet: SheetView) -> Result<Seq<char>, Error> {
    if positions_valid(sheet) {
        Ok(text_of_sheet(sheet)->0)
    } else {
        Err(Error::InvalidTimecode)
    }
}

/// Writes a cue sheet as text.
pub fn render_sheet(sheet: SheetDescriptor) -> (r: Result<String, Error>)
    ensures
        match r {
            Ok(text) => render_sheet_spec(sheet@) == Ok::<Seq<char>, Error>(text@),
            Err(e) => render_sheet_spec(sheet@) == Err::<Seq<char>, Error>(e),
        },
{
    match write_sheet(sheet) {
        Ok(text) => Ok(text),
        Err(_) => Err(Error::InvalidTimecode),
    }
}

/// The position of the first index with number 1, as sheet text.
pub open spec fn start_index(indices: Seq<(u8, Seq<char>)>) -> Option<Seq<char>>
    decreases indices.len(),
{
    if indices.len() == 0 {
        None
    } else if indices[0].0 == 1 {
        Some(indices[0].1)
    } else {
        start_index(indices.drop_first())
    }
}

/// The sample at which a track starts: the position of its index 1, at
/// `sample_rate` samples per second.
pub open spec fn start_position(indices: Seq<(u8, Seq<char>)>, sample_rate: nat) -> Result<
    nat,
    Error,
> {
    match start_index(indices) {
        None => Err(Error::MissingStartIndex),
        Some(text) => match parse_msf(text) {
            None => Err(Error::InvalidTimecode),
            Some(t) => Ok(msf_samples(t, sample_rate)),
        },
    }
}

/// The sample at which a track starts.
pub fn cue_msf_to_samples(indices: &Vec<(u8, String)>, sample_rate: u32) -> (r: Result<u64, Error>)
    ensures
        match r {
            Ok(position) => start_position(indices_view(indices@), sample_rate as nat) == Ok::<
                nat,
                Error,
            >(position as nat),
            Err(e) => start_position(indices_view(indices@), sample_rate as nat) == Err::<
                nat,
                Error,
            >(e),
        },
{
    let ghost all = indices_view(indices@);
    let mut i: usize = 0;
    assert(all.skip(0) == all);
    while i < indices.len()
        invariant
            i <= indices.len(),
            all == indices_view(indices@),
            start_index(all) == start_index(all.skip(i as int)),
        decreases indices.len() - i,
    {
        let ghost rest = all.skip(i as int);
        assert(rest[0] == (indices[i as int].0, indices[i as int].1@));
        if indices[i].0 == 1 {
            return match TrackMSF::try_from(indices[i].1.as_str()) {
                Ok(t) => Ok(t.to_samples(sample_rate)),
                Err(_) => Err(Error::InvalidTimecode),
            };
        }
        assert(rest.drop_first() == all.skip(i + 1));
        i += 1;
    }
    Err(Error::MissingStartIndex)
}

/// A text, or `default` where there is none.
pub open spec fn text_or(text: Option<Seq<char>>, default: Seq<char>) -> Seq<char> {
    match text {
        Some(t) => t,
        None => default,
    }
}

/// The view of a list of comments that may be absent.
pub open spec fn comments_view(rem: Option<Vec<String>>) -> Seq<Seq<char>> {
    match rem {
        Some(comments) => texts_view(comments@),
        None => Seq::<Seq<char>>::empty(),
    }
}

/// The frame at which track `i` of a merged stream starts: the lengths of
/// the tracks before it together, capped at what 64 bits can count.
pub open spec fn start_frame(durations: Seq<DurationView>, i: int) -> nat
    decreases i,
{
    if i <= 0 {
        0
    } else {
        let sum = start_frame(durations, i - 1) + durations[i - 1].duration_samples;
        if sum > u64::MAX {
            u64::MAX as nat
        } else {
            sum
        }
    }
}

/// The comment that records a track's length in frames.
pub open spec fn duration_note(frames: nat) -> Seq<char> {
    "DURATION "@ + decimal_digits(frames)
}

/// Track `i` of the sheet of a merged stream: titled after its file, with
/// the sheet's performer, starting where the tracks before it end, and with
/// its length in frames as a comment. It lies in the sheet's only file.
pub open spec fn merge_track(
    performer: Seq<char>,
    durations: Seq<DurationView>,
    i: int,
    sample_rate: nat,
) -> (nat, TrackView) {
    (
        0,
        TrackView {
            title: file_stem(durations[i].file),
            performer: Some(performer),
            indices: seq![
                (1u8, msf_text(msf_of_time(start_frame(durations, i), sample_rate))),
            ],
            comments: seq![duration_note(durations[i].duration_samples)],
        },
    )
}

/// The sheet of a merged stream: one file, `output`, and one track for each
/// file that went into it, in order. Title and performer are `Album` and
/// `Artist` where none is given.
pub open spec fn merge_sheet(
    title: Option<Seq<char>>,
    performer: Option<Seq<char>>,
    comments: Seq<Seq<char>>,
    output: Seq<char>,
    durations: Seq<DurationView>,
    sample_rate: nat,
) -> SheetView {
    SheetView {
        title: text_or(title, "Album"@),
        performer: text_or(performer, "Artist"@),
        comments,
        files: seq![output],
        tracks: Seq::new(
            durations.len(),
            |i: int| merge_track(text_or(performer, "Artist"@), durations, i, sample_rate),
        ),
    }
}

/// A copy of a list of texts.
fn clone_texts(texts: &Vec<String>) -> (copy: Vec<String>)
    ensures
        texts_view(copy@) == texts_view(texts@),
{
    let mut copy: Vec<String> = Vec::new();
    let mut i: usize = 0;
    while i < texts.len()
        invariant
            i <= texts.len(),
            copy.len() == i,
            forall|j: int| 0 <= j < i ==> copy@[j]@ == texts@[j]@,
        decreases texts.len() - i,
    {
        copy.push(texts[i].clone());
        i += 1;
    }
    assert(texts_view(copy@) =~= texts_view(texts@));
    copy
}

/// A copy of a text that may be absent.
fn clone_option(text: &Option<String>) -> (copy: Option<String>)
    ensures
        option_view(copy) == option_view(*text),
{
    match text {
        Some(t) => Some(t.clone()),
        None => None,
    }
}

/// The text, or a copy of `default` where there is none.
fn text_or_default(text: &Option<String>, default: &str) -> (r: String)
    ensures
        r@ == text_or(option_view(*text), default@),
{
    match text {
        Some(t) => t.clone(),
        None => default.to_owned(),
    }
}

/// Builds the sheet of a merged stream.
pub fn merge_sheet_of(
    title: &Option<String>,
    performer: &Option<String>,
    rem: &Option<Vec<String>>,
    output: &str,
    durations: &Vec<Duration>,
    sample_rate: u32,
) -> (sheet: SheetDescriptor)
    requires
        sample_rate > 0,
    ensures
        sheet@ == merge_sheet(
            option_view(*title),
            option_view(*performer),
            comments_view(*rem),
            output@,
            durations_view(durations@),
            sample_rate as nat,
        ),
{
    let ghost dv = durations_view(durations@);
    let ghost artist = text_or(option_view(*performer), "Artist"@);
    let sheet_title = text_or_default(title, "Album");
    let sheet_performer = text_or_default(performer, "Artist");
    let comments = match rem {
        Some(list) => clone_texts(list),
        None => Vec::new(),
    };
    assert(texts_view(comments@) =~= comments_view(*rem));
    let mut files: Vec<String> = Vec::new();
    files.push(output.to_owned());
    assert(texts_view(files@) =~= seq![output@]);
    let mut tracks: Vec<(usize, TrackDescriptor)> = Vec::new();
    let mut position: u64 = 0;
    let mut i: usize = 0;
    while i < durations.len()
        invariant
            i <= durations.len(),
            sample_rate > 0,
            dv == durations_view(durations@),
            artist == sheet_performer@,
            position == start_frame(dv, i as int),
            tracks.len() == i,
            forall|k: int|
                0 <= k < i ==> (#[trigger] tracks@[k]).0 == 0 && tracks@[k].1@ == merge_track(
                    artist,
                    dv,
                    k,
                    sample_rate as nat,
                ).1,
        decreases durations.len() - i,
    {
        let frames: u64 = durations[i].duration_samples;
        assert(dv[i as int] == durations@[i as int]@);
        let name = chars_of(durations[i].file.as_str());
        let stem = stem_of(&name);
        let mut note = chars_of("DURATION ");
        push_decimal(&mut note, frames);
        let mut indices: Vec<(u8, String)> = Vec::new();
        indices.push((1u8, TrackMSF::new(position, sample_rate).to_string()));
        let mut notes: Vec<String> = Vec::new();
        notes.push(string_from_chars(&note));
        let track = TrackDescriptor {
            title: string_from_chars(&stem),
            performer: Some(sheet_performer.clone()),
            indices,
            comments: notes,
        };
        proof {
            let expected = merge_track(artist, dv, i as int, sample_rate as nat).1;
            assert(track@.indices =~= expected.indices);
            assert(track@.comments =~= expected.comments);
            assert(track@.performer == expected.performer);
            assert(track@.title == expected.title);
            assert(track@ == expected);
        }
        tracks.push((0, track));
        position = if frames > u64::MAX - position {
            u64::MAX
        } else {
            position + frames
        };
        i += 1;
    }
    let sheet = SheetDescriptor {
        title: sheet_title,
        performer: sheet_performer,
        comments,
        files,
        tracks,
    };
    proof {
        let expected = merge_sheet(
            option_view(*title),
            option_view(*performer),
            comments_view(*rem),
            output@,
            dv,
            sample_rate as nat,
        );
        assert(sheet@.tracks.len() == expected.tracks.len());
        assert forall|k: int| 0 <= k < sheet@.tracks.len() implies sheet@.tracks[k]
            == expected.tracks[k] by {
            assert(sheet.tracks@[k].0 == 0);
        }
        assert(sheet@.tracks =~= expected.tracks);
    }
    sheet
}

/// What the sheet text of a merged stream is: that of its sheet. There is
/// none at a sample rate of zero, nor where a track starts at 100 minutes
/// or later, which no index position can say.
pub open spec fn merge_cue_spec(
    title: Option<Seq<char>>,
    performer: Option<Seq<char>>,
    comments: Seq<Seq<char>>,
    output: Seq<char>,
    durations: Seq<DurationView>,
    sample_rate: nat,
) -> Result<Seq<char>, Error> {
    if sample_rate == 0 {
        Err(Error::InvalidTimecode)
    } else {
        render_sheet_spec(
            merge_sheet(title, performer, comments, output, durations, sample_rate),
        )
    }
}

/// Every index position of the sheet of a merged stream is a timecode
/// exactly where every track starts before 100 minutes have passed.
pub proof fn lemma_merge_sheet_valid(
    title: Option<Seq<char>>,
    performer: Option<Seq<char>>,
    comments: Seq<Seq<char>>,
    output: Seq<char>,
    durations: Seq<DurationView>,
    sample_rate: nat,
)
    requires
        sample_rate > 0,
    ensures
        positions_valid(merge_sheet(title, performer, comments, output, durations, sample_rate))
            <==> forall|i: int|
            0 <= i < durations.len() ==> #[trigger] start_frame(durations, i) / sample_rate < 6000,
{
    let sheet = merge_sheet(title, performer, comments, output, durations, sample_rate);
    assert forall|i: int| 0 <= i < durations.len() implies (parse_msf(
        sheet.tracks[i].1.indices[0].1,
    ) is Some <==> start_frame(durations, i) / sample_rate < 6000) by {
        let start = start_frame(durations, i);
        let t = msf_of_time(start, sample_rate);
        lemma_text_round_trip(t);
        lemma_time_fields(start, sample_rate);
    }
    if positions_valid(sheet) {
        assert forall|i: int| 0 <= i < durations.len() implies #[trigger] start_frame(
            durations,
            i,
        ) / sample_rate < 6000 by {
            assert(parse_msf(sheet.tracks[i].1.indices[0].1) is Some);
        }
    }
}

/// Writes the sheet of a merged stream: `output` is the name of the merged
/// file, `durations` hold the name and the length in frames of each file
/// that went into it, in order.
pub fn merge_create_cue(
    title: &Option<String>,
    performer: &Option<String>,
    rem: &Option<Vec<String>>,
    output: &str,
    durations: &Vec<Duration>,
    sample_rate: u32,
) -> (r: Result<String, Error>)
    ensures
        match r {
            Ok(text) => merge_cue_spec(
                option_view(*title),
                option_view(*performer),
                comments_view(*rem),
                output@,
                durations_view(durations@),
                sample_rate as nat,
            ) == Ok::<Seq<char>, Error>(text@),
            Err(e) => merge_cue_spec(
                option_view(*title),
                option_view(*performer),
                comments_view(*rem),
                output@,
                durations_view(durations@),
                sample_rate as nat,
            ) == Err::<Seq<char>, Error>(e),
        },
{
    if sample_rate == 0 {
        return Err(Error::InvalidTimecode);
    }
    render_sheet(merge_sheet_of(title, performer, rem, output, durations, sample_rate))
}

/// The position at which every track of a split sheet starts.
pub open spec fn zero_position() -> Seq<char> {
    msf_text(Msf { minutes: 0, seconds: 0, fractions: 0 })
}

/// Track `i` of the sheet of a split: title, performer and comments of
/// track `i` of the sheet that was split, starting at zero in file `i`.
pub open spec fn split_track(sheet: SheetView, i: int) -> (nat, TrackView) {
    (
        i as nat,
        TrackView {
            title: sheet.tracks[i].1.title,
            performer: sheet.tracks[i].1.performer,
            indices: seq![(1u8, zero_position())],
            comments: sheet.tracks[i].1.comments,
        },
    )
}

/// The sheet of a split: one file and one track for each boundary, with
/// the title, performer and comments of the sheet that was split.
/// `MissingTrack` where there are more boundaries than tracks.
pub open spec fn split_sheet(sheet: SheetView, durations: Seq<DurationView>) -> Result<
    SheetView,
    Error,
> {
    if durations.len() > sheet.tracks.len() {
        Err(Error::MissingTrack)
    } else {
        Ok(
            SheetView {
                title: sheet.title,
                performer: sheet.performer,
                comments: sheet.comments,
                files: Seq::new(durations.len(), |i: int| durations[i].file),
                tracks: Seq::new(durations.len(), |i: int| split_track(sheet, i)),
            },
        )
    }
}

/// Builds the sheet of a split.
pub fn split_sheet_of(cue_file: &SheetDescriptor, durations: &Vec<Duration>) -> (r: Result<
    SheetDescriptor,
    Error,
>)
    ensures
        match r {
            Ok(sheet) => split_sheet(cue_file@, durations_view(durations@)) == Ok::<
                SheetView,
                Error,
            >(sheet@),
            Err(e) => split_sheet(cue_file@, durations_view(durations@)) == Err::<
                SheetView,
                Error,
            >(e),
        },
{
    if durations.len() > cue_file.tracks.len() {
        return Err(Error::MissingTrack);
    }
    let ghost dv = durations_view(durations@);
    let mut files: Vec<String> = Vec::new();
    let mut tracks: Vec<(usize, TrackDescriptor)> = Vec::new();
    let mut i: usize = 0;
    while i < durations.len()
        invariant
            i <= durations.len(),
            durations.len() <= cue_file.tracks.len(),
            dv == durations_view(durations@),
            files.len() == i,
            tracks.len() == i,
            forall|k: int| 0 <= k < i ==> (#[trigger] files@[k])@ == dv[k].file,
            forall|k: int|
                0 <= k < i ==> (#[trigger] tracks@[k]).0 == k && tracks@[k].1@ == split_track(
                    cue_file@,
                    k,
                ).1,
        decreases durations.len() - i,
    {
        files.push(durations[i].file.clone());
        let source = &cue_file.tracks[i].1;
        assert(cue_file@.tracks[i as int].1 == source@);
        let mut indices: Vec<(u8, String)> = Vec::new();
        indices.push((1u8, TrackMSF::new(0, 1).to_string()));
        let track = TrackDescriptor {
            title: source.title.clone(),
            performer: clone_option(&source.performer),
            indices,
            comments: clone_texts(&source.comments),
        };
        proof {
            let expected = split_track(cue_file@, i as int).1;
            lemma_time_zero(1);
            assert(track@.indices =~= expected.indices);
            assert(track@ == expected);
        }
        tracks.push((i, track));
        i += 1;
    }
    let sheet = SheetDescriptor {
        title: cue_file.title.clone(),
        performer: cue_file.performer.clone(),
        comments: clone_texts(&cue_file.comments),
        files,
        tracks,
    };
    proof {
        let expected = split_sheet(cue_file@, dv)->Ok_0;
        assert(sheet@.files =~= expected.files);
        assert forall|k: int| 0 <= k < sheet@.tracks.len() implies sheet@.tracks[k]
            == expected.tracks[k] by {
            assert(sheet.tracks@[k].0 == k);
        }
        assert(sheet@.tracks =~= expected.tracks);
    }
    Ok(sheet)
}

/// Every index position of the sheet of a split is a timecode.
pub proof fn lemma_split_sheet_valid(sheet: SheetView, durations: Seq<DurationView>)
    requires
        split_sheet(sheet, durations) is Ok,
    ensures
        positions_valid(split_sheet(sheet, durations)->Ok_0),
{
    lemma_text_round_trip(Msf { minutes: 0, seconds: 0, fractions: 0 });
}

/// What the sheet text of a split is: that of its sheet, which there always
/// is where the boundaries are no more than the tracks.
pub open spec fn split_cue_spec(sheet: SheetView, durations: Seq<DurationView>) -> Result<
    Seq<char>,
    Error,
> {
    match split_sheet(sheet, durations) {
        Ok(split) => Ok(text_of_sheet(split)->0),
        Err(e) => Err(e),
    }
}

/// Writes the sheet of a split: `cue_file` is the sheet that was split,
/// `durations` hold the name of each file that came out, in order.
pub fn split_create_cue(cue_file: &SheetDescriptor, durations: &Vec<Duration>) -> (r: Result<
    String,
    Error,
>)
    ensures
        match r {
            Ok(text) => split_cue_spec(cue_file@, durations_view(durations@)) == Ok::<
                Seq<char>,
                Error,
            >(text@),
            Err(e) => split_cue_spec(cue_file@, durations_view(durations@)) == Err::<
                Seq<char>,
                Error,
            >(e),
        },
{
    match split_sheet_of(cue_file, durations) {
        Ok(sheet) => {
            proof {
                lemma_split_sheet_valid(cue_file@, durations_view(durations@));
            }
            render_sheet(sheet)
        },
        Err(e) => Err(e),
    }
}

/// The name of a file with `suffix` in place of its extension.
fn with_suffix(name: &str, suffix: &str) -> (r: String)
    ensures
        r@ == file_stem(name@) + suffix@,
{
    let mut chars = stem_of(&chars_of(name));
    push_all(&mut chars, &chars_of(suffix));
    string_from_chars(&chars)
}

/// The name of the sheet that goes with a merged file: the file's name
/// with `.cue` in place of its extension.
pub fn merge_cue_name(output: &str) -> (r: String)
    ensures
        r@ == file_stem(output@) + ".cue"@,
{
    with_suffix(output, ".cue")
}

/// The name of the sheet that a split writes: the name of the sheet that
/// was split, with `_multiple.cue` in place of its extension.
pub fn split_cue_name(input: &str) -> (r: String)
    ensures
        r@ == file_stem(input@) + "_multiple.cue"@,
{
    with_suffix(input, "_multiple.cue")
}

} // verus!
