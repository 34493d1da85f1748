//! Timecodes in minutes, seconds and frames, a frame being 1/75 second.
//!
//! Time is exact here: a position is a number of samples at a sample rate,
//! and every conversion is integer arithmetic on that ratio.
use vstd::prelude::*;
use crate::text::{
    chars_of, fields_view, lemma_digits_contain_no, lemma_parse_decimal_digits, lemma_split_plain,
    lemma_split_tail, parse_number, parse_unsigned, push_all, push_two_digits, split_chars,
    split_on, string_from_chars, two_digits,
};

verus! {

/// Timecode frames in one second.
pub const FRAMES_PER_SECOND: u64 = 75;

/// The largest value the parser accepts in any field.
pub const FIELD_MAX: u64 = 99;

/// What a timecode holds, as plain numbers.
pub struct Msf {
    pub minutes: nat,
    pub seconds: nat,
    pub fractions: nat,
}

/// The error of [`TrackMSF::try_from`].
#[derive(Debug, Clone, PartialEq, Eq)]
pub enum TrackMSFParseError {
    /// The text is not a timecode; the variant carries the text.
    InvalidTimeStamp(String),
}

/// A position on a track: minutes, seconds and frames.
#[derive(Debug, Clone, Copy, PartialEq, Eq)]
pub struct TrackMSF {
    minutes: u8,
    seconds: u8,
    fractions: u8,
}

/// The frame nearest to the fraction `rem / den` of a second, a tie going up.
pub open spec fn nearest_frame(rem: nat, den: nat) -> nat
    recommends
        den > 0,
        rem < den,
{
    (rem * 150 + den) / (2 * den)
}

/// The timecode of the time `num / den` seconds: whole minutes, capped at
/// 255; whole seconds within the minute; and the nearest frame within the
/// second, which is 75 where the time lies less than half a frame below the
/// next second.
pub open spec fn msf_of_time(num: nat, den: nat) -> Msf
    recommends
        den > 0,
{
    let whole = num / den;
    Msf {
        minutes: if whole / 60 > 255 {
            255
        } else {
            whole / 60
        },
        seconds: whole % 60,
        fractions: nearest_frame(num % den, den),
    }
}

/// The length of a timecode in frames.
pub open spec fn msf_frames(t: Msf) -> nat {
    (t.minutes * 60 + t.seconds) * 75 + t.fractions
}

/// The sample at which a timecode stands, at `sample_rate` samples per
/// second: its time times the rate, rounded down.
pub open spec fn msf_samples(t: Msf, sample_rate: nat) -> nat {
    msf_frames(t) * sample_rate / 75
}

/// The timecode that a text of the form `mm:ss:ff` stands for: exactly three
/// fields between colons, each an unsigned decimal number up to 99.
pub open spec fn parse_msf(s: Seq<char>) -> Option<Msf> {
    let fields = split_on(s, ':');
    if fields.len() == 3 && parse_unsigned(fields[0], 99) is Some && parse_unsigned(
        fields[1],
        99,
    ) is Some && parse_unsigned(fields[2], 99) is Some {
        Some(
            Msf {
                minutes: parse_unsigned(fields[0], 99)->0,
                seconds: parse_unsigned(fields[1], 99)->0,
                fractions: parse_unsigned(fields[2], 99)->0,
            },
        )
    } else {
        None
    }
}

/// The text of a timecode: each field in decimal with at least two digits,
/// with colons between.
pub open spec fn msf_text(t: Msf) -> Seq<char> {
    two_digits(t.minutes) + seq![':'] + two_digits(t.seconds) + seq![':'] + two_digits(
        t.fractions,
    )
}

impl TrackMSFParseError {
    /// The error in words: `Invalid timestamp: `, then the text that was
    /// refused.
    pub fn to_string(&self) -> (r: String)
        ensures
            match self {
                TrackMSFParseError::InvalidTimeStamp(text) => r@ == "Invalid timestamp: "@
                    + text@,
            },
    {
        match self {
            TrackMSFParseError::InvalidTimeStamp(text) => {
                let mut out = chars_of("Invalid timestamp: ");
                push_all(&mut out, &chars_of(text.as_str()));
                string_from_chars(&out)
            },
        }
    }
}

impl View for TrackMSF {
    type V = Msf;

    closed spec fn view(&self) -> Msf {
        Msf {
            minutes: self.minutes as nat,
            seconds: self.seconds as nat,
            fractions: self.fractions as nat,
        }
    }
}

impl TrackMSF {
    /// The timecode of the position `samples` at `sample_rate` samples per
    /// second.
    pub fn new(samples: u64, sample_rate: u32) -> (t: TrackMSF)
        requires
            sample_rate > 0,
        ensures
            t@ == msf_of_time(samples as nat, sample_rate as nat),
    {
        let rate: u64 = sample_rate as u64;
        let whole: u64 = samples / rate;
        let rem: u64 = samples % rate;
        let minutes: u8 = if whole / 60 > 255 {
            255
        } else {
            (whole / 60) as u8
        };
        let seconds: u8 = (whole % 60) as u8;
        assert(rem * 150 + rate <= 151 * rate) by (nonlinear_arith)
            requires
                rem < rate,
        ;
        let frame: u64 = (rem * 150 + rate) / (2 * rate);
        assert(frame <= 75) by (nonlinear_arith)
            requires
                frame == (rem * 150 + rate) / (2 * rate),
                rem < rate,
                rate > 0,
        ;
        TrackMSF { minutes, seconds, fractions: frame as u8 }
    }

    /// The minutes field.
    pub fn minutes(&self) -> (r: u8)
        ensures
            r == self@.minutes,
    {
        self.minutes
    }

    /// The seconds field.
    pub fn seconds(&self) -> (r: u8)
        ensures
            r == self@.seconds,
    {
        self.seconds
    }

    /// The frames field.
    pub fn fractions(&self) -> (r: u8)
        ensures
            r == self@.fractions,
    {
        self.fractions
    }

    /// The length of the timecode in frames.
    pub fn to_duration_frames(&self) -> (r: u32)
        ensures
            r == msf_frames(self@),
    {
        (self.minutes as u32 * 60 + self.seconds as u32) * 75 + self.fractions as u32
    }

    /// The sample at which the timecode stands, at `sample_rate` samples
    /// per second.
    pub fn to_samples(&self, sample_rate: u32) -> (r: u64)
        ensures
            r == msf_samples(self@, sample_rate as nat),
    {
        let frames: u64 = self.to_duration_frames() as u64;
        assert(frames * sample_rate <= 1166880 * 0xffff_ffff) by (nonlinear_arith)
            requires
                frames <= 1166880,
                sample_rate <= 0xffff_ffff,
        ;
        frames * (sample_rate as u64) / FRAMES_PER_SECOND
    }

    /// Reads a timecode of the form `mm:ss:ff`.
    pub fn try_from(value: &str) -> (r: Result<TrackMSF, TrackMSFParseError>)
        ensures
            match r {
                Ok(t) => parse_msf(value@) == Some(t@),
                Err(TrackMSFParseError::InvalidTimeStamp(text)) => parse_msf(value@) is None
                    && text@ == value@,
            },
    {
        let chars = chars_of(value);
        let fields = split_chars(&chars, ':');
        assert(fields_view(fields@).len() == fields.len());
        if fields.len() != 3 {
            return Err(TrackMSFParseError::InvalidTimeStamp(value.to_owned()));
        }
        assert(fields_view(fields@)[0] == fields[0]@);
        assert(fields_view(fields@)[1] == fields[1]@);
        assert(fields_view(fields@)[2] == fields[2]@);
        let minutes = parse_number(&fields[0], FIELD_MAX);
        let seconds = parse_number(&fields[1], FIELD_MAX);
        let fractions = parse_number(&fields[2], FIELD_MAX);
        match (minutes, seconds, fractions) {
            (Some(m), Some(s), Some(f)) => Ok(
                TrackMSF { minutes: m as u8, seconds: s as u8, fractions: f as u8 },
            ),
            _ => Err(TrackMSFParseError::InvalidTimeStamp(value.to_owned())),
        }
    }

    /// The timecode as text.
    pub fn to_string(&self) -> (r: String)
        ensures
            r@ == msf_text(self@),
    {
        let mut out: Vec<char> = Vec::new();
        push_two_digits(&mut out, self.minutes as u64);
        out.push(':');
        push_two_digits(&mut out, self.seconds as u64);
        out.push(':');
        push_two_digits(&mut out, self.fractions as u64);
        assert(out@ == msf_text(self@));
        string_from_chars(&out)
    }
}

/// Whether every field of a timecode is within what the sheet text can
/// carry.
pub open spec fn msf_in_range(t: Msf) -> bool {
    t.minutes <= 99 && t.seconds <= 99 && t.fractions <= 99
}

/// A timecode read back from its own text is that timecode, where its
/// fields are all below 100; text with a larger field is not read at all.
pub proof fn lemma_text_round_trip(t: Msf)
    ensures
        parse_msf(msf_text(t)) == if msf_in_range(t) {
            Some(t)
        } else {
            None::<Msf>
        },
{
    let a = two_digits(t.minutes);
    let b = two_digits(t.seconds);
    let c = two_digits(t.fractions);
    lemma_digits_contain_no(t.minutes, ':');
    lemma_digits_contain_no(t.seconds, ':');
    lemma_digits_contain_no(t.fractions, ':');
    lemma_split_plain(a, ':');
    lemma_split_tail(a, b, ':');
    lemma_split_tail(a + seq![':'] + b, c, ':');
    let fields = split_on(msf_text(t), ':');
    assert(fields == seq![a, b, c]);
    lemma_parse_decimal_digits(t.minutes, 99);
    lemma_parse_decimal_digits(t.seconds, 99);
    lemma_parse_decimal_digits(t.fractions, 99);
}

/// The fields of the timecode of a time: seconds below 60, frames up to 75,
/// and minutes below 100 exactly where the time is below 6000 seconds.
pub proof fn lemma_time_fields(num: nat, den: nat)
    requires
        den > 0,
    ensures
        msf_of_time(num, den).seconds < 60,
        msf_of_time(num, den).fractions <= 75,
        msf_of_time(num, den).minutes <= 255,
        msf_of_time(num, den).minutes <= 99 <==> num / den < 6000,
        msf_in_range(msf_of_time(num, den)) <==> num / den < 6000,
{
    let rem = num % den;
    assert(rem < den && (rem * 150 + den) / (2 * den) <= 75) by (nonlinear_arith)
        requires
            den > 0,
            rem == num % den,
    ;
}

/// The timecode of time zero is zero in every field.
pub proof fn lemma_time_zero(den: nat)
    requires
        den > 0,
    ensures
        msf_of_time(0, den) == (Msf { minutes: 0, seconds: 0, fractions: 0 }),
{
    assert(0nat / den == 0 && 0nat % den == 0 && (0nat % den * 150 + den) / (2 * den) == 0)
        by (nonlinear_arith)
        requires
            den > 0,
    ;
}

/// The timecode of a time below 256 minutes lies within half a frame of
/// that time: with `frames` the timecode's length, `frames / 75` differs
/// from `num / den` by at most 1/150.
pub proof fn lemma_time_precision(num: nat, den: nat)
    requires
        den > 0,
        num < 15360 * den,
    ensures
        2 * (msf_frames(msf_of_time(num, den)) * den - 75 * num) <= den,
        2 * (75 * num - msf_frames(msf_of_time(num, den)) * den) <= den,
{
    let whole = num / den;
    let rem = num % den;
    let frame = nearest_frame(rem, den);
    assert(num == whole * den + rem && rem < den && whole < 15360) by (nonlinear_arith)
        requires
            den > 0,
            num < 15360 * den,
            whole == num / den,
            rem == num % den,
    ;
    assert(msf_frames(msf_of_time(num, den)) == whole * 75 + frame);
    assert(2 * den * frame <= rem * 150 + den && rem * 150 + den < 2 * den * frame + 2 * den)
        by (nonlinear_arith)
        requires
            den > 0,
            frame == (rem * 150 + den) / (2 * den),
    ;
    assert((whole * 75 + frame) * den - 75 * num == frame * den - 75 * rem) by (nonlinear_arith)
        requires
            num == whole * den + rem,
    ;
    assert(2 * (frame * den - 75 * rem) == 2 * den * frame - rem * 150) by (nonlinear_arith);
}

} // verus!
