//! Sample streams: transfer between streams, and the digest that proves
//! two streams equal.
//!
//! A sample is a 32-bit word, whatever the stream's sample format: an
//! integer sample is its value, a floating-point sample its bit pattern.
//! Samples are interleaved: one frame holds one sample per channel.
use vstd::prelude::*;
use crate::error::Error;
use crate::text::{
    chars_of, extension_of, file_extension, lowercase, string_from_chars, to_lowercase,
};

verus! {

/// How a stream encodes one sample.
#[derive(Debug, Clone, Copy, PartialEq, Eq, Structural)]
pub enum SampleFormat {
    /// Signed integers.
    Int,
    /// 32-bit floating point.
    Float,
}

/// The shape of a stream. One operation uses one shape throughout.
#[derive(Debug, Clone, Copy, PartialEq, Eq, Structural)]
pub struct AudioSpec {
    /// Samples per frame.
    pub channels: u16,
    /// Frames per second.
    pub sample_rate: u32,
    /// Bits in one sample as stored.
    pub bits_per_sample: u16,
    /// Integer or floating point.
    pub sample_format: SampleFormat,
}

/// A stream's shape and its length in interleaved samples.
#[derive(Debug, Clone, Copy, PartialEq, Eq, Structural)]
pub struct AudioInfo {
    pub spec: AudioSpec,
    pub total_samples: u64,
}

/// One track of a merge or a split: the name of its file and its length.
///
/// After a merge the length counts frames; the boundaries of a split count
/// interleaved samples.
#[derive(Debug, Clone, PartialEq, Eq)]
pub struct Duration {
    pub file: String,
    pub duration_samples: u64,
}

/// What a [`Duration`] holds, as plain values.
pub struct DurationView {
    pub file: Seq<char>,
    pub duration_samples: nat,
}

impl View for Duration {
    type V = DurationView;

    open spec fn view(&self) -> DurationView {
        DurationView { file: self.file@, duration_samples: self.duration_samples as nat }
    }
}

/// The views of a list of durations.
pub open spec fn durations_view(durations: Seq<Duration>) -> Seq<DurationView> {
    Seq::new(durations.len(), |i: int| durations[i]@)
}

/// The lengths of a list of durations.
pub open spec fn duration_lengths(durations: Seq<DurationView>) -> Seq<nat> {
    Seq::new(durations.len(), |i: int| durations[i].duration_samples)
}

/// The two containers.
#[derive(Debug, Clone, Copy, PartialEq, Eq, Structural)]
pub enum AudioFormat {
    /// PCM in a RIFF container.
    Wav,
    /// Compressed lossless.
    Flac,
}

/// One audio file as it was read.
#[derive(Debug, Clone, PartialEq, Eq)]
pub struct AudioFile {
    /// The file's name.
    pub file: String,
    /// The length in frames that the file's header states, if it states one.
    pub frames: Option<u64>,
    /// The file's samples, interleaved.
    pub samples: Vec<i32>,
}

/// The streams of a list of files.
pub open spec fn file_streams(inputs: Seq<AudioFile>) -> Seq<Seq<i32>> {
    Seq::new(inputs.len(), |i: int| inputs[i].samples@)
}

/// The container that a lowercase extension names.
pub open spec fn format_of_lowercase(lower: Seq<char>) -> Option<AudioFormat> {
    if lower == "wav"@ {
        Some(AudioFormat::Wav)
    } else if lower == "flac"@ {
        Some(AudioFormat::Flac)
    } else {
        None
    }
}

/// The container that a file extension names, whatever its case.
pub open spec fn format_of_extension(extension: Seq<char>) -> Option<AudioFormat> {
    format_of_lowercase(lowercase(extension))
}

/// The container that the extension of a file name names; none for a name
/// without an extension.
pub open spec fn format_of_name(name: Seq<char>) -> Option<AudioFormat> {
    match file_extension(name) {
        Some(extension) => format_of_extension(extension),
        None => None,
    }
}

/// Whether two texts hold the same characters.
fn same_text(a: &str, b: &str) -> (r: bool)
    ensures
        r == (a@ == b@),
{
    let left = chars_of(a);
    let right = chars_of(b);
    if left.len() != right.len() {
        return false;
    }
    let mut i: usize = 0;
    while i < left.len()
        invariant
            i <= left.len(),
            left.len() == right.len(),
            left@ == a@,
            right@ == b@,
            forall|j: int| 0 <= j < i ==> left@[j] == right@[j],
        decreases left.len() - i,
    {
        if left[i] != right[i] {
            assert(a@[i as int] != b@[i as int]);
            return false;
        }
        i += 1;
    }
    assert(left@ =~= right@);
    true
}

impl AudioFormat {
    /// The container named by an extension that is in lowercase already:
    /// `wav` or `flac`, and nothing else.
    pub fn from_lowercase(lower: &str) -> (r: Result<AudioFormat, Error>)
        ensures
            match r {
                Ok(format) => format_of_lowercase(lower@) == Some(format),
                Err(e) => e == Error::UnsupportedFormat && format_of_lowercase(lower@) is None,
            },
    {
        if same_text(lower, "wav") {
            Ok(AudioFormat::Wav)
        } else if same_text(lower, "flac") {
            Ok(AudioFormat::Flac)
        } else {
            Err(Error::UnsupportedFormat)
        }
    }

    /// The container named by a file extension (without the dot).
    pub fn from_extension(extension: &str) -> (r: Result<AudioFormat, Error>)
        ensures
            match r {
                Ok(format) => format_of_extension(extension@) == Some(format),
                Err(e) => e == Error::UnsupportedFormat && format_of_extension(extension@)
                    is None,
            },
    {
        let lower = to_lowercase(extension);
        AudioFormat::from_lowercase(lower.as_str())
    }

    /// The container named by the extension of a file name.
    pub fn from_name(name: &str) -> (r: Result<AudioFormat, Error>)
        ensures
            match r {
                Ok(format) => format_of_name(name@) == Some(format),
                Err(e) => e == Error::UnsupportedFormat && format_of_name(name@) is None,
            },
    {
        match extension_of(&chars_of(name)) {
            Some(extension) => AudioFormat::from_extension(string_from_chars(&extension).as_str()),
            None => Err(Error::UnsupportedFormat),
        }
    }
}

/// The shape and length of a PCM stream, from its header: the shape as it
/// stands there, and the length that the header counts.
pub fn get_wav_info(spec: AudioSpec, length: u32) -> (info: AudioInfo)
    ensures
        info == (AudioInfo { spec, total_samples: length as u64 }),
{
    AudioInfo { spec, total_samples: length as u64 }
}

/// The shape and length of a compressed stream, from what its header says:
/// the channel count and the sample width cut to 16 bits, the samples
/// integers, and the length the frame count times the channels.
pub open spec fn flac_info_spec(
    channels: u32,
    sample_rate: u32,
    bits_per_sample: u32,
    frames: Option<u64>,
) -> Result<AudioInfo, Error> {
    let spec = AudioSpec {
        channels: (channels % 0x1_0000) as u16,
        sample_rate,
        bits_per_sample: (bits_per_sample % 0x1_0000) as u16,
        sample_format: SampleFormat::Int,
    };
    match frames {
        None => Err(Error::MissingSampleCount),
        Some(n) => if n * spec.channels <= u64::MAX {
            Ok(AudioInfo { spec, total_samples: (n * spec.channels) as u64 })
        } else {
            Err(Error::BoundaryOutOfRange)
        },
    }
}

/// The shape and length of a compressed stream, from what its header says.
pub fn get_flac_info(channels: u32, sample_rate: u32, bits_per_sample: u32, frames: Option<u64>) -> (r:
    Result<AudioInfo, Error>)
    ensures
        r == flac_info_spec(channels, sample_rate, bits_per_sample, frames),
{
    let spec = AudioSpec {
        channels: (channels % 0x1_0000) as u16,
        sample_rate,
        bits_per_sample: (bits_per_sample % 0x1_0000) as u16,
        sample_format: SampleFormat::Int,
    };
    match frames {
        None => Err(Error::MissingSampleCount),
        Some(n) => match n.checked_mul(spec.channels as u64) {
            Some(total) => Ok(AudioInfo { spec, total_samples: total }),
            None => Err(Error::BoundaryOutOfRange),
        },
    }
}

/// The four bytes of a sample, most significant first.
pub open spec fn be_bytes(sample: i32) -> Seq<u8> {
    let word: int = if sample < 0 {
        sample + 0x1_0000_0000
    } else {
        sample as int
    };
    seq![
        (word / 0x100_0000) as u8,
        (word / 0x1_0000 % 0x100) as u8,
        (word / 0x100 % 0x100) as u8,
        (word % 0x100) as u8,
    ]
}

/// The bytes of a stream: those of each sample, in order.
pub open spec fn stream_bytes(samples: Seq<i32>) -> Seq<u8>
    decreases samples.len(),
{
    if samples.len() == 0 {
        Seq::<u8>::empty()
    } else {
        stream_bytes(samples.drop_last()) + be_bytes(samples.last())
    }
}

/// Several streams as one: each after the other, in order.
pub open spec fn concat_all(streams: Seq<Seq<i32>>) -> Seq<i32>
    decreases streams.len(),
{
    if streams.len() == 0 {
        Seq::<i32>::empty()
    } else {
        concat_all(streams.drop_last()) + streams.last()
    }
}

/// The views of a list of streams.
pub open spec fn streams_view(streams: Seq<Vec<i32>>) -> Seq<Seq<i32>> {
    Seq::new(streams.len(), |i: int| streams[i]@)
}

/// The sum of a list of lengths.
pub open spec fn total_length(lengths: Seq<nat>) -> nat
    decreases lengths.len(),
{
    if lengths.len() == 0 {
        0
    } else {
        total_length(lengths.drop_last()) + lengths.last()
    }
}

/// A stream cut into pieces of the given lengths, one after the other from
/// the start of the stream. `None` where the stream is shorter than the
/// lengths together. What the stream holds beyond them is left out.
pub open spec fn split_stream(source: Seq<i32>, lengths: Seq<nat>) -> Option<Seq<Seq<i32>>>
    decreases lengths.len(),
{
    if lengths.len() == 0 {
        Some(Seq::<Seq<i32>>::empty())
    } else {
        let start = total_length(lengths.drop_last());
        match split_stream(source, lengths.drop_last()) {
            Some(pieces) => if start + lengths.last() <= source.len() {
                Some(pieces.push(source.subrange(start as int, (start + lengths.last()) as int)))
            } else {
                None
            },
            None => None,
        }
    }
}

/// The bytes that a hasher has taken in so far.
pub uninterp spec fn hasher_input(hasher: blake3::Hasher) -> Seq<u8>;

/// Whether a hasher computes the regular hash function from the start of
/// its input: it has no key, no context, and no input offset.
pub uninterp spec fn hasher_is_regular(hasher: blake3::Hasher) -> bool;

/// The BLAKE3 digest of a sequence of bytes.
pub uninterp spec fn blake3_digest(input: Seq<u8>) -> Seq<u8>;

/// The state of a BLAKE3 computation.
#[verifier::external_type_specification]
#[verifier::external_body]
pub struct ExHasher(blake3::Hasher);

/// `blake3::Hasher::new`: a hasher for the regular hash function that has
/// taken in nothing.
#[verifier::external_body]
fn new_hasher() -> (hasher: blake3::Hasher)
    ensures
        hasher_input(hasher) == Seq::<u8>::empty(),
        hasher_is_regular(hasher),
{
    blake3::Hasher::new()
}

/// `blake3::Hasher::update` on a regular hasher: the hasher takes in the
/// bytes, after what it had taken in before, and stays regular. A hasher
/// with an input offset is left out: it takes no more than its subtree
/// holds.
#[verifier::external_body]
fn update_hasher(hasher: &mut blake3::Hasher, bytes: &[u8; 4])
    requires
        hasher_is_regular(*old(hasher)),
    ensures
        hasher_input(*final(hasher)) == hasher_input(*old(hasher)) + bytes@,
        hasher_is_regular(*final(hasher)),
    no_unwind
{
    hasher.update(bytes);
}

/// `blake3::Hasher::finalize` on a regular hasher: the digest of all that
/// the hasher has taken in. A hasher with a key or a context is left out,
/// as its digest depends on them too, and one with an input offset, which
/// cannot be finalized.
#[verifier::external_body]
fn finalize_hasher(hasher: &blake3::Hasher) -> (digest: [u8; 32])
    requires
        hasher_is_regular(*hasher),
    ensures
        digest@ == blake3_digest(hasher_input(*hasher)),
{
    *hasher.finalize().as_bytes()
}

/// `num_traits::ToBytes::to_be_bytes` on a 32-bit sample: its four bytes,
/// most significant first.
#[verifier::external_body]
fn sample_bytes(sample: i32) -> (bytes: [u8; 4])
    ensures
        bytes@ == be_bytes(sample),
{
    num_traits::ToBytes::to_be_bytes(&sample)
}

/// The bytes of two streams in a row are those of the first, then those of
/// the second.
pub proof fn lemma_stream_bytes_concat(a: Seq<i32>, b: Seq<i32>)
    ensures
        stream_bytes(a + b) == stream_bytes(a) + stream_bytes(b),
    decreases b.len(),
{
    if b.len() == 0 {
        assert(a + b == a);
    } else {
        lemma_stream_bytes_concat(a, b.drop_last());
        assert((a + b).drop_last() == a + b.drop_last());
        assert((a + b).last() == b.last());
    }
}

/// A running digest over sample streams. It starts empty and only ever
/// takes in the bytes of samples.
pub struct SampleHasher {
    hasher: blake3::Hasher,
}

impl SampleHasher {
    #[verifier::type_invariant]
    spec fn regular(self) -> bool {
        hasher_is_regular(self.hasher)
    }

    /// The bytes taken in so far.
    pub closed spec fn input(&self) -> Seq<u8> {
        hasher_input(self.hasher)
    }

    /// A hasher that has taken in nothing.
    pub fn new() -> (hasher: SampleHasher)
        ensures
            hasher.input() == Seq::<u8>::empty(),
    {
        SampleHasher { hasher: new_hasher() }
    }

    /// Takes in the bytes of every sample, in order.
    pub fn update(&mut self, samples: &Vec<i32>)
        ensures
            final(self).input() == old(self).input() + stream_bytes(samples@),
    {
        proof {
            use_type_invariant(&*self);
        }
        let mut i: usize = 0;
        assert(samples@.take(0) == Seq::<i32>::empty());
        assert(self.input() + Seq::<u8>::empty() == self.input());
        while i < samples.len()
            invariant
                i <= samples.len(),
                hasher_is_regular(self.hasher),
                self.input() == old(self).input() + stream_bytes(samples@.take(i as int)),
            decreases samples.len() - i,
        {
            let bytes = sample_bytes(samples[i]);
            update_hasher(&mut self.hasher, &bytes);
            proof {
                assert(samples@.take(i + 1).drop_last() == samples@.take(i as int));
                assert(samples@.take(i + 1).last() == samples@[i as int]);
                assert(self.input() == old(self).input() + (stream_bytes(samples@.take(i as int))
                    + be_bytes(samples@[i as int])));
            }
            i += 1;
        }
        assert(samples@.take(samples.len() as int) == samples@);
    }

    /// The digest of all that was taken in.
    pub fn finalize(&self) -> (digest: [u8; 32])
        ensures
            digest@ == blake3_digest(self.input()),
    {
        proof {
            use_type_invariant(self);
        }
        finalize_hasher(&self.hasher)
    }
}

/// Feeds the samples of a file to the hasher. A file whose name's extension
/// names no container is refused, and the hasher stays as it was.
pub fn hash_samples(file: &AudioFile, hasher: &mut SampleHasher) -> (r: Result<(), Error>)
    ensures
        match format_of_name(file.file@) {
            Some(_) => r is Ok && final(hasher).input() == old(hasher).input() + stream_bytes(
                file.samples@,
            ),
            None => r == Err::<(), Error>(Error::UnsupportedFormat) && final(hasher).input()
                == old(hasher).input(),
        },
{
    match AudioFormat::from_name(file.file.as_str()) {
        Ok(_) => {
            hasher.update(&file.samples);
            Ok(())
        },
        Err(e) => Err(e),
    }
}

/// The digest of several streams taken as one.
pub fn digest_of(streams: &Vec<Vec<i32>>) -> (digest: [u8; 32])
    ensures
        digest@ == blake3_digest(stream_bytes(concat_all(streams_view(streams@)))),
{
    let mut hasher = SampleHasher::new();
    let mut i: usize = 0;
    assert(streams_view(streams@).take(0) == Seq::<Seq<i32>>::empty());
    while i < streams.len()
        invariant
            i <= streams.len(),
            hasher.input() == stream_bytes(concat_all(streams_view(streams@).take(i as int))),
        decreases streams.len() - i,
    {
        let ghost before = concat_all(streams_view(streams@).take(i as int));
        hasher.update(&streams[i]);
        proof {
            let next = streams_view(streams@).take(i + 1);
            assert(next.drop_last() == streams_view(streams@).take(i as int));
            assert(next.last() == streams@[i as int]@);
            lemma_stream_bytes_concat(before, streams@[i as int]@);
        }
        i += 1;
    }
    assert(streams_view(streams@).take(streams.len() as int) == streams_view(streams@));
    hasher.finalize()
}

/// Holds the digest of what was read against the digest of what was
/// written: they agree where they hold the same bytes.
pub fn compare_digests(input: &[u8; 32], output: &[u8; 32]) -> (r: Result<(), Error>)
    ensures
        r == if input@ == output@ {
            Ok::<(), Error>(())
        } else {
            Err::<(), Error>(Error::VerificationMismatch)
        },
{
    let mut i: usize = 0;
    while i < 32
        invariant
            i <= 32,
            forall|j: int| 0 <= j < i ==> input@[j] == output@[j],
        decreases 32 - i,
    {
        if input[i] != output[i] {
            return Err(Error::VerificationMismatch);
        }
        i += 1;
    }
    assert(input@ =~= output@);
    Ok(())
}

/// Whether the digest of `input`, its streams taken as one, equals the
/// digest of `output`.
pub open spec fn digests_agree(input: Seq<Seq<i32>>, output: Seq<i32>) -> bool {
    blake3_digest(stream_bytes(concat_all(input))) == blake3_digest(stream_bytes(output))
}

/// Whether the name of every file has an extension that names a container.
pub open spec fn formats_known(files: Seq<AudioFile>) -> bool {
    forall|i: int| 0 <= i < files.len() ==> format_of_name((#[trigger] files[i]).file@) is Some
}

/// What verification gives: `UnsupportedFormat` where the name of a file,
/// read or written, names no container; else `VerificationMismatch` where
/// the digests differ.
pub open spec fn verify_spec(input: Seq<AudioFile>, output: AudioFile) -> Result<(), Error> {
    if !formats_known(input) || format_of_name(output.file@) is None {
        Err(Error::UnsupportedFormat)
    } else if digests_agree(file_streams(input), output.samples@) {
        Ok(())
    } else {
        Err(Error::VerificationMismatch)
    }
}

/// Checks that `output` holds the samples of the files of `input`, file
/// after file, by comparing digests.
pub fn verify_samples(input: &Vec<AudioFile>, output: &AudioFile) -> (r: Result<(), Error>)
    ensures
        r == verify_spec(input@, *output),
{
    let mut input_hasher = SampleHasher::new();
    let mut i: usize = 0;
    assert(file_streams(input@).take(0) == Seq::<Seq<i32>>::empty());
    while i < input.len()
        invariant
            i <= input.len(),
            forall|k: int| 0 <= k < i ==> format_of_name((#[trigger] input@[k]).file@) is Some,
            input_hasher.input() == stream_bytes(concat_all(file_streams(input@).take(i as int))),
        decreases input.len() - i,
    {
        let ghost before = concat_all(file_streams(input@).take(i as int));
        match hash_samples(&input[i], &mut input_hasher) {
            Ok(_) => {},
            Err(e) => {
                assert(format_of_name(input@[i as int].file@) is None);
                return Err(e);
            },
        }
        proof {
            let next = file_streams(input@).take(i + 1);
            assert(next.drop_last() == file_streams(input@).take(i as int));
            assert(next.last() == input@[i as int].samples@);
            lemma_stream_bytes_concat(before, input@[i as int].samples@);
        }
        i += 1;
    }
    assert(file_streams(input@).take(input.len() as int) == file_streams(input@));
    let input_hash = input_hasher.finalize();
    let mut output_hasher = SampleHasher::new();
    match hash_samples(output, &mut output_hasher) {
        Ok(_) => {},
        Err(e) => {
            return Err(e);
        },
    }
    assert(Seq::<u8>::empty() + stream_bytes(output.samples@) == stream_bytes(output.samples@));
    let output_hash = output_hasher.finalize();
    compare_digests(&input_hash, &output_hash)
}

/// Equal samples pass verification: where `output` holds exactly the
/// samples of `input`, the digests agree.
pub proof fn lemma_equal_streams_verify(input: Seq<Seq<i32>>, output: Seq<i32>)
    requires
        concat_all(input) == output,
    ensures
        digests_agree(input, output),
{
}

/// Appends every sample of `source` to `sink`, in order.
pub fn copy_samples(source: &Vec<i32>, sink: &mut Vec<i32>)
    ensures
        final(sink)@ == old(sink)@ + source@,
{
    let mut i: usize = 0;
    while i < source.len()
        invariant
            i <= source.len(),
            sink@ == old(sink)@ + source@.take(i as int),
        decreases source.len() - i,
    {
        sink.push(source[i]);
        i += 1;
        assert(source@.take(i as int) == source@.take(i - 1).push(source@[i - 1]));
    }
    assert(source@.take(source.len() as int) == source@);
}

/// The `length` samples of `source` that start at `offset`;
/// `SourceExhausted` where the stream ends before them.
pub fn split_piece(source: &Vec<i32>, offset: usize, length: u64) -> (r: Result<Vec<i32>, Error>)
    ensures
        match r {
            Ok(piece) => offset + length <= source.len() && piece@ == source@.subrange(
                offset as int,
                offset + length,
            ),
            Err(e) => e == Error::SourceExhausted && offset + length > source.len(),
        },
{
    if offset > source.len() || length > (source.len() - offset) as u64 {
        return Err(Error::SourceExhausted);
    }
    let end: usize = offset + length as usize;
    let mut piece: Vec<i32> = Vec::new();
    let mut j: usize = offset;
    while j < end
        invariant
            offset <= j <= end,
            end <= source.len(),
            piece@ == source@.subrange(offset as int, j as int),
        decreases end - j,
    {
        piece.push(source[j]);
        j += 1;
        assert(source@.subrange(offset as int, j as int) == source@.subrange(
            offset as int,
            j - 1,
        ).push(source@[j - 1]));
    }
    Ok(piece)
}

/// Cuts `source` into one stream per boundary: each takes the samples that
/// follow those of the boundary before it, as many as its length says.
pub fn split_samples(source: &Vec<i32>, durations: &Vec<Duration>) -> (r: Result<
    Vec<Vec<i32>>,
    Error,
>)
    ensures
        match r {
            Ok(pieces) => split_stream(source@, duration_lengths(durations_view(durations@)))
                == Some(streams_view(pieces@)),
            Err(e) => e == Error::SourceExhausted && split_stream(
                source@,
                duration_lengths(durations_view(durations@)),
            ) is None,
        },
{
    let ghost lengths = duration_lengths(durations_view(durations@));
    let mut pieces: Vec<Vec<i32>> = Vec::new();
    let mut offset: usize = 0;
    let mut i: usize = 0;
    assert(lengths.take(0) == Seq::<nat>::empty());
    assert(streams_view(pieces@) == Seq::<Seq<i32>>::empty());
    while i < durations.len()
        invariant
            i <= durations.len(),
            lengths == duration_lengths(durations_view(durations@)),
            lengths.len() == durations.len(),
            offset <= source.len(),
            offset == total_length(lengths.take(i as int)),
            split_stream(source@, lengths.take(i as int)) == Some(streams_view(pieces@)),
        decreases durations.len() - i,
    {
        let length: u64 = durations[i].duration_samples;
        proof {
            assert(lengths.take(i + 1).drop_last() == lengths.take(i as int));
            assert(lengths.take(i + 1).last() == length);
        }
        let piece = match split_piece(source, offset, length) {
            Ok(piece) => piece,
            Err(e) => {
                proof {
                    lemma_split_stream_prefix(source@, lengths, i + 1);
                }
                return Err(e);
            },
        };
        let ghost done = streams_view(pieces@);
        let ghost cut = piece@;
        pieces.push(piece);
        assert(streams_view(pieces@) == done.push(cut));
        offset = offset + length as usize;
        i += 1;
    }
    assert(lengths.take(durations.len() as int) == lengths);
    Ok(pieces)
}

/// Where a stream is too short for the first `k` lengths, it is too short
/// for all of them.
proof fn lemma_split_stream_prefix(source: Seq<i32>, lengths: Seq<nat>, k: int)
    requires
        0 <= k <= lengths.len(),
        split_stream(source, lengths.take(k)) is None,
    ensures
        split_stream(source, lengths) is None,
    decreases lengths.len() - k,
{
    if k == lengths.len() {
        assert(lengths.take(k) == lengths);
    } else {
        assert(lengths.drop_last().take(k) == lengths.take(k));
        lemma_split_stream_prefix(source, lengths.drop_last(), k);
    }
}

/// The lengths of a list of streams.
pub open spec fn stream_lengths(streams: Seq<Seq<i32>>) -> Seq<nat> {
    Seq::new(streams.len(), |i: int| streams[i].len())
}

/// A merged stream is as long as its streams together.
pub proof fn lemma_concat_length(streams: Seq<Seq<i32>>)
    ensures
        concat_all(streams).len() == total_length(stream_lengths(streams)),
    decreases streams.len(),
{
    if streams.len() > 0 {
        lemma_concat_length(streams.drop_last());
        assert(stream_lengths(streams).drop_last() == stream_lengths(streams.drop_last()));
    }
}

/// What lies beyond the lengths does not change the pieces.
proof fn lemma_split_stream_longer(source: Seq<i32>, extra: Seq<i32>, lengths: Seq<nat>)
    requires
        total_length(lengths) <= source.len(),
    ensures
        split_stream(source, lengths) is Some,
        split_stream(source + extra, lengths) == split_stream(source, lengths),
    decreases lengths.len(),
{
    if lengths.len() > 0 {
        lemma_split_stream_longer(source, extra, lengths.drop_last());
        let start = total_length(lengths.drop_last()) as int;
        let end = start + lengths.last();
        assert((source + extra).subrange(start, end) == source.subrange(start, end));
    }
}

/// Splitting a merged stream at the lengths of its streams gives the
/// streams back, each whole and in its place.
pub proof fn lemma_split_concat(streams: Seq<Seq<i32>>)
    ensures
        split_stream(concat_all(streams), stream_lengths(streams)) == Some(streams),
    decreases streams.len(),
{
    let lengths = stream_lengths(streams);
    if streams.len() == 0 {
        assert(streams == Seq::<Seq<i32>>::empty());
    } else {
        let head = streams.drop_last();
        let merged = concat_all(head);
        lemma_split_concat(head);
        lemma_concat_length(head);
        assert(lengths.drop_last() == stream_lengths(head));
        lemma_split_stream_longer(merged, streams.last(), stream_lengths(head));
        let start = merged.len() as int;
        assert((merged + streams.last()).subrange(start, start + streams.last().len())
            == streams.last());
        assert(head.push(streams.last()) == streams);
    }
}

} // verus!
