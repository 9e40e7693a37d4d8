//! RIFF/WAVE parsing.

use crate::types::OxiWhisperError;
use vstd::prelude::*;
use vstd::string::*;

verus! {

/// Audio format tag for integer PCM.
pub const WAVE_FORMAT_PCM: u16 = 1;

/// Audio format tag for floating-point PCM.
pub const WAVE_FORMAT_IEEE_FLOAT: u16 = 3;

/// Parsed fmt chunk fields.
#[derive(Debug, Clone, Copy, PartialEq, Eq, Structural)]
pub struct FmtChunk {
    /// Format tag.
    pub audio_format: u16,
    /// Number of interleaved channels.
    pub num_channels: u16,
    /// Frames per second.
    pub sample_rate: u32,
    /// Bits of one sample.
    pub bits_per_sample: u16,
}

/// One sample as the file holds it.
#[derive(Debug, Clone, Copy, PartialEq, Eq, Structural)]
pub enum Sample {
    /// A signed integer and the number of bits that it was stored in.
    Int {
        /// The value, centred at zero.
        value: i32,
        /// 8, 16, 24 or 32.
        bits: u16,
    },
    /// The bit pattern of a single-precision number.
    Float {
        /// The pattern.
        pattern: u32,
    },
}

/// The interleaved samples of a file and their format.
pub struct WavAudio {
    /// Format.
    pub fmt: FmtChunk,
    /// Interleaved samples.
    pub samples: Vec<Sample>,
}

/// Why a byte sequence holds no audio.
pub enum WavFailure {
    /// Fewer than 12 bytes.
    TooSmall,
    /// No RIFF tag.
    Riff,
    /// No WAVE tag.
    Wave,
    /// A fmt chunk of fewer than 16 bytes.
    FmtTooSmall,
    /// The bytes end inside a 16-bit integer.
    EndU16,
    /// The bytes end inside a 32-bit integer.
    EndU32,
    /// The bytes end inside a single-precision number.
    EndFloat,
    /// The bytes end inside a 24-bit integer.
    EndI24,
    /// The bytes end inside a signed 32-bit integer.
    EndI32,
    /// No channels.
    ZeroChannels,
    /// No frames per second.
    ZeroRate,
    /// An integer format of a bit depth that is not supported.
    PcmDepth(u16),
    /// A floating-point format of a bit depth that is not supported.
    FloatDepth(u16),
    /// A format tag that is not supported.
    FormatTag(u16),
    /// A frame of no bytes.
    FrameSize,
    /// The data extends past the end.
    PastEnd,
    /// A format and depth that do not go together.
    Combination(u16, u16),
    /// A data chunk that no fmt chunk precedes.
    DataBeforeFmt,
    /// No data chunk.
    NoData,
}

/// The message of a failed parse.
pub open spec fn failure_text(e: WavFailure) -> Seq<char> {
    match e {
        WavFailure::TooSmall => "File too small to be a WAV"@,
        WavFailure::Riff => "Missing RIFF header"@,
        WavFailure::Wave => "Missing WAVE tag"@,
        WavFailure::FmtTooSmall => "fmt chunk too small"@,
        WavFailure::EndU16 => "Unexpected end of WAV data reading u16"@,
        WavFailure::EndU32 => "Unexpected end of WAV data reading u32"@,
        WavFailure::EndFloat => "Unexpected end of WAV data reading f32"@,
        WavFailure::EndI24 => "Unexpected end of WAV data reading i24"@,
        WavFailure::EndI32 => "Unexpected end of WAV data reading i32"@,
        WavFailure::ZeroChannels => "WAV has zero channels"@,
        WavFailure::ZeroRate => "WAV has zero sample rate"@,
        WavFailure::PcmDepth(d) => "Unsupported PCM bit depth: "@ + crate::text::decimal(d as int),
        WavFailure::FloatDepth(d) => "Unsupported IEEE float bit depth: "@ + crate::text::decimal(
            d as int,
        ),
        WavFailure::FormatTag(t) => "Unsupported audio format tag: "@ + crate::text::decimal(
            t as int,
        ),
        WavFailure::FrameSize => "Frame size is zero"@,
        WavFailure::PastEnd => "Data chunk extends past end of file"@,
        WavFailure::Combination(f, d) => "Unsupported format/depth combination: fmt="@
            + crate::text::decimal(f as int) + ", bits="@ + crate::text::decimal(d as int),
        WavFailure::DataBeforeFmt => "data chunk before fmt chunk"@,
        WavFailure::NoData => "No data chunk found in WAV"@,
    }
}

/// Whether an error reports the failure `e`.
pub open spec fn reports(error: OxiWhisperError, e: WavFailure) -> bool {
    error matches OxiWhisperError::InvalidModel(m) && m@ == failure_text(e)
}

/// The error with the given message.
fn invalid(message: &str) -> (e: OxiWhisperError)
    ensures
        e matches OxiWhisperError::InvalidModel(m) && m@ == message@,
{
    OxiWhisperError::InvalidModel(message.to_string())
}

/// The error with the given message and a number behind it.
fn invalid_number(message: &str, n: u16) -> (e: OxiWhisperError)
    ensures
        e matches OxiWhisperError::InvalidModel(m) && m@ == message@ + crate::text::decimal(
            n as int,
        ),
{
    let mut m: String = message.to_string();
    crate::text::append_decimal(&mut m, n as i64);
    OxiWhisperError::InvalidModel(m)
}

/// Reads the unsigned 16-bit integer at `offset`.
pub fn read_u16_le(data: &[u8], offset: usize) -> (r: Result<u16, OxiWhisperError>)
    ensures
        match r {
            Ok(v) => crate::le::available(data@, offset as int, 2) && v == crate::le::u16_at(
                data@,
                offset as int,
            ),
            Err(e) => !crate::le::available(data@, offset as int, 2) && reports(
                e,
                WavFailure::EndU16,
            ),
        },
{
    if !crate::le::has_bytes(data, offset, 2) {
        return Err(invalid("Unexpected end of WAV data reading u16"));
    }
    Ok(crate::le::get_u16(data, offset))
}

/// Reads the unsigned 32-bit integer at `offset`.
pub fn read_u32_le(data: &[u8], offset: usize) -> (r: Result<u32, OxiWhisperError>)
    ensures
        match r {
            Ok(v) => crate::le::available(data@, offset as int, 4) && v == crate::le::u32_at(
                data@,
                offset as int,
            ),
            Err(e) => !crate::le::available(data@, offset as int, 4) && reports(
                e,
                WavFailure::EndU32,
            ),
        },
{
    if !crate::le::has_bytes(data, offset, 4) {
        return Err(invalid("Unexpected end of WAV data reading u32"));
    }
    Ok(crate::le::get_u32(data, offset))
}

/// Reads the bit pattern of the single-precision number at `offset`.
pub fn read_f32_le(data: &[u8], offset: usize) -> (r: Result<u32, OxiWhisperError>)
    ensures
        match r {
            Ok(v) => crate::le::available(data@, offset as int, 4) && v == crate::le::u32_at(
                data@,
                offset as int,
            ),
            Err(e) => !crate::le::available(data@, offset as int, 4) && reports(
                e,
                WavFailure::EndFloat,
            ),
        },
{
    if !crate::le::has_bytes(data, offset, 4) {
        return Err(invalid("Unexpected end of WAV data reading f32"));
    }
    Ok(crate::le::get_u32(data, offset))
}

/// Reads the signed 24-bit integer at `offset`.
pub fn read_i24_le(data: &[u8], offset: usize) -> (r: Result<i32, OxiWhisperError>)
    ensures
        match r {
            Ok(v) => crate::le::available(data@, offset as int, 3) && v == crate::le::i24_at(
                data@,
                offset as int,
            ),
            Err(e) => !crate::le::available(data@, offset as int, 3) && reports(
                e,
                WavFailure::EndI24,
            ),
        },
{
    if !crate::le::has_bytes(data, offset, 3) {
        return Err(invalid("Unexpected end of WAV data reading i24"));
    }
    Ok(crate::le::get_i24(data, offset))
}

/// Reads the signed 32-bit integer at `offset`.
pub fn read_i32_le(data: &[u8], offset: usize) -> (r: Result<i32, OxiWhisperError>)
    ensures
        match r {
            Ok(v) => crate::le::available(data@, offset as int, 4) && v == crate::le::i32_at(
                data@,
                offset as int,
            ),
            Err(e) => !crate::le::available(data@, offset as int, 4) && reports(
                e,
                WavFailure::EndI32,
            ),
        },
{
    if !crate::le::has_bytes(data, offset, 4) {
        return Err(invalid("Unexpected end of WAV data reading i32"));
    }
    Ok(crate::le::get_i32(data, offset))
}

/// Whether the four bytes of `tag` stand at `offset`.
pub fn tag_matches(data: &[u8], offset: usize, expected: &[u8; 4]) -> (r: bool)
    ensures
        r == (crate::le::available(data@, offset as int, 4) && data@.subrange(
            offset as int,
            offset + 4,
        ) == expected@),
{
    if !crate::le::has_bytes(data, offset, 4) {
        return false;
    }
    let ghost found = data@.subrange(offset as int, offset + 4);
    assert(found[0] == data@[offset as int] && found[1] == data@[offset + 1] && found[2]
        == data@[offset + 2] && found[3] == data@[offset + 3]);
    let r: bool = data[offset] == expected[0] && data[offset + 1] == expected[1] && data[offset + 2]
        == expected[2] && data[offset + 3] == expected[3];
    if r {
        assert(found =~= expected@);
    }
    r
}

/// The format in the body of a fmt chunk of `size` bytes. The bytes may end before the chunk
/// does.
#[verifier::opaque]
pub open spec fn fmt_of(body: Seq<u8>, size: u32) -> Result<FmtChunk, WavFailure> {
    if size < 16 {
        Err(WavFailure::FmtTooSmall)
    } else if body.len() < 4 {
        Err(WavFailure::EndU16)
    } else if body.len() < 8 {
        Err(WavFailure::EndU32)
    } else if body.len() < 16 {
        Err(WavFailure::EndU16)
    } else {
        let f = FmtChunk {
            audio_format: crate::le::u16_at(body, 0),
            num_channels: crate::le::u16_at(body, 2),
            sample_rate: crate::le::u32_at(body, 4),
            bits_per_sample: crate::le::u16_at(body, 14),
        };
        if f.num_channels == 0 {
            Err(WavFailure::ZeroChannels)
        } else if f.sample_rate == 0 {
            Err(WavFailure::ZeroRate)
        } else if f.audio_format == WAVE_FORMAT_PCM {
            if f.bits_per_sample == 8 || f.bits_per_sample == 16 || f.bits_per_sample == 24
                || f.bits_per_sample == 32 {
                Ok(f)
            } else {
                Err(WavFailure::PcmDepth(f.bits_per_sample))
            }
        } else if f.audio_format == WAVE_FORMAT_IEEE_FLOAT {
            if f.bits_per_sample == 32 {
                Ok(f)
            } else {
                Err(WavFailure::FloatDepth(f.bits_per_sample))
            }
        } else {
            Err(WavFailure::FormatTag(f.audio_format))
        }
    }
}

/// The format in the body of `size` bytes at `offset`. Behind the end there are no bytes.
pub open spec fn fmt_at(data: Seq<u8>, offset: int, size: u32) -> Result<FmtChunk, WavFailure> {
    fmt_of(
        if offset <= data.len() {
            data.skip(offset)
        } else {
            Seq::empty()
        },
        size,
    )
}

/// Reads the format in the body of a fmt chunk.
pub fn parse_fmt_chunk(data: &[u8], offset: usize, chunk_size: u32) -> (r: Result<
    FmtChunk,
    OxiWhisperError,
>)
    ensures
        match fmt_at(data@, offset as int, chunk_size) {
            Ok(f) => r is Ok && r->Ok_0 == f,
            Err(e) => r is Err && reports(r->Err_0, e),
        },
{
    let len: usize = data.len();
    let ghost body = data@.skip(offset as int);
    proof {
        reveal(fmt_of);
    }
    if chunk_size < 16 {
        return Err(invalid("fmt chunk too small"));
    }
    let audio_format: u16 = match read_u16_le(data, offset) {
        Ok(v) => v,
        Err(e) => {
            return Err(e);
        },
    };
    let num_channels: u16 = match read_u16_le(data, offset + 2) {
        Ok(v) => v,
        Err(e) => {
            return Err(e);
        },
    };
    let sample_rate: u32 = match read_u32_le(data, offset + 4) {
        Ok(v) => v,
        Err(e) => {
            return Err(e);
        },
    };
    if len - offset < 16 {
        return Err(invalid("Unexpected end of WAV data reading u16"));
    }
    let bits_per_sample: u16 = crate::le::get_u16(data, offset + 14);
    assert(forall|i: int| 0 <= i < 16 ==> #[trigger] body[i] == data@[offset + i]);
    if num_channels == 0 {
        return Err(invalid("WAV has zero channels"));
    }
    if sample_rate == 0 {
        return Err(invalid("WAV has zero sample rate"));
    }
    if audio_format == WAVE_FORMAT_PCM {
        if bits_per_sample != 8 && bits_per_sample != 16 && bits_per_sample != 24
            && bits_per_sample != 32 {
            return Err(invalid_number("Unsupported PCM bit depth: ", bits_per_sample));
        }
    } else if audio_format == WAVE_FORMAT_IEEE_FLOAT {
        if bits_per_sample != 32 {
            return Err(invalid_number("Unsupported IEEE float bit depth: ", bits_per_sample));
        }
    } else {
        return Err(invalid_number("Unsupported audio format tag: ", audio_format));
    }
    Ok(FmtChunk { audio_format, num_channels, sample_rate, bits_per_sample })
}

/// Whether samples of this format can be decoded.
pub open spec fn is_supported(f: FmtChunk) -> bool {
    ||| f.audio_format == WAVE_FORMAT_PCM && (f.bits_per_sample == 8 || f.bits_per_sample == 16
        || f.bits_per_sample == 24 || f.bits_per_sample == 32)
    ||| f.audio_format == WAVE_FORMAT_IEEE_FLOAT && f.bits_per_sample == 32
}

/// The number of bytes of one sample.
pub open spec fn sample_bytes(f: FmtChunk) -> nat {
    ((f.bits_per_sample + 7) / 8) as nat
}

/// The number of bytes of one frame.
pub open spec fn frame_bytes(f: FmtChunk) -> nat {
    sample_bytes(f) * (f.num_channels as nat)
}

/// Whether a sample lies between -1 and 1: an integer by the full scale of its bits.
pub open spec fn in_range(s: Sample) -> bool {
    match s {
        Sample::Int { value, bits } => {
            let full = crate::audio::signal::full_scale(bits);
            -full <= value < full
        },
        Sample::Float { pattern } => crate::bits::in_unit_range(pattern),
    }
}

/// The sample number `i` of a body. A floating-point sample beyond the range from -1 to 1 becomes
/// the nearest bound; one that is not a number becomes zero.
pub open spec fn sample_of(body: Seq<u8>, f: FmtChunk, i: int) -> Sample {
    if f.bits_per_sample == 8 {
        Sample::Int { value: (body[i] - 128) as i32, bits: 8 }
    } else if f.bits_per_sample == 16 {
        Sample::Int {
            value: crate::le::signed(crate::le::u16_at(body, 2 * i) as int, 0x1_0000) as i32,
            bits: 16,
        }
    } else if f.bits_per_sample == 24 {
        Sample::Int { value: crate::le::i24_at(body, 3 * i), bits: 24 }
    } else if f.audio_format == WAVE_FORMAT_PCM {
        Sample::Int { value: crate::le::i32_at(body, 4 * i), bits: 32 }
    } else {
        Sample::Float { pattern: crate::bits::limited(crate::le::u32_at(body, 4 * i)) }
    }
}

/// The number of samples in the whole frames of `size` bytes.
pub open spec fn sample_count(f: FmtChunk, size: nat) -> nat {
    size / frame_bytes(f) * (f.num_channels as nat)
}

/// The samples in the whole frames of the first `size` bytes of a body.
#[verifier::opaque]
pub open spec fn samples_of(body: Seq<u8>, size: nat, f: FmtChunk) -> Result<
    Seq<Sample>,
    WavFailure,
> {
    if frame_bytes(f) == 0 {
        Err(WavFailure::FrameSize)
    } else if size / frame_bytes(f) * frame_bytes(f) > body.len() {
        Err(WavFailure::PastEnd)
    } else if sample_count(f, size) > 0 && !is_supported(f) {
        Err(WavFailure::Combination(f.audio_format, f.bits_per_sample))
    } else {
        Ok(Seq::new(sample_count(f, size), |i: int| sample_of(body, f, i)))
    }
}

/// Reads the sample number `i` behind `offset`.
fn get_sample(data: &[u8], offset: usize, fmt: &FmtChunk, i: usize) -> (s: Sample)
    requires
        offset <= data@.len(),
        is_supported(*fmt),
        sample_bytes(*fmt) * (i + 1) <= data@.len() - offset,
    ensures
        s == sample_of(data@.skip(offset as int), *fmt, i as int),
        in_range(s),
{
    let len: usize = data.len();
    let ghost body = data@.skip(offset as int);
    let ghost width = sample_bytes(*fmt) as int;
    assert(forall|j: int| 0 <= j < body.len() ==> #[trigger] body[j] == data@[offset + j]);
    match fmt.bits_per_sample {
        8 => {
            let b: u8 = data[offset + i];
            Sample::Int { value: b as i32 - 128, bits: 8 }
        },
        16 => {
            let u: i32 = crate::le::get_u16(data, offset + 2 * i) as i32;
            Sample::Int {
                value: if u < 0x8000 {
                    u
                } else {
                    u - 0x1_0000
                },
                bits: 16,
            }
        },
        24 => Sample::Int { value: crate::le::get_i24(data, offset + 3 * i), bits: 24 },
        _ => {
            if fmt.audio_format == WAVE_FORMAT_PCM {
                Sample::Int { value: crate::le::get_i32(data, offset + 4 * i), bits: 32 }
            } else {
                Sample::Float {
                    pattern: crate::bits::limit(crate::le::get_u32(data, offset + 4 * i)),
                }
            }
        },
    }
}

/// The samples in the whole frames of the `size` bytes at `offset`. No frame, not even none, lies
/// behind the end.
pub open spec fn samples_at(data: Seq<u8>, offset: int, size: nat, f: FmtChunk) -> Result<
    Seq<Sample>,
    WavFailure,
> {
    if offset <= data.len() {
        samples_of(data.skip(offset), size, f)
    } else if frame_bytes(f) == 0 {
        Err(WavFailure::FrameSize)
    } else {
        Err(WavFailure::PastEnd)
    }
}

/// Decodes the samples in the whole frames of the `data_size` bytes at `offset`.
///
/// Every sample lies between -1 and 1. A floating-point sample beyond that range becomes the
/// nearest bound, and one that is not a number becomes zero.
pub fn decode_samples(data: &[u8], offset: usize, data_size: usize, fmt: &FmtChunk) -> (r: Result<
    Vec<Sample>,
    OxiWhisperError,
>)
    ensures
        match samples_at(data@, offset as int, data_size as nat, *fmt) {
            Ok(s) => r is Ok && r->Ok_0@ == s,
            Err(e) => r is Err && reports(r->Err_0, e),
        },
        r is Ok ==> forall|i: int| 0 <= i < r->Ok_0@.len() ==> in_range(#[trigger] r->Ok_0@[i]),
{
    let len: usize = data.len();
    let ghost body = data@.skip(offset as int);
    proof {
        reveal(samples_of);
    }
    let channels: usize = fmt.num_channels as usize;
    let bytes_per_sample: usize = (fmt.bits_per_sample as usize + 7) / 8;
    proof {
        assert(0 <= bytes_per_sample * channels <= 8192 * 65535) by (nonlinear_arith)
            requires
                0 <= bytes_per_sample <= 8192,
                0 <= channels <= 65535,
        ;
    }
    let frame_size: usize = bytes_per_sample * channels;
    if frame_size == 0 {
        return Err(invalid("Frame size is zero"));
    }
    let num_frames: usize = data_size / frame_size;
    proof {
        assert(num_frames * frame_size <= data_size) by (nonlinear_arith)
            requires
                frame_size > 0,
                num_frames == data_size / frame_size,
        ;
        assert(bytes_per_sample >= 1 && channels >= 1) by (nonlinear_arith)
            requires
                bytes_per_sample * channels > 0,
                bytes_per_sample >= 0,
                channels >= 0,
        ;
        assert(num_frames * (bytes_per_sample * channels) == bytes_per_sample * (num_frames
            * channels)) by (nonlinear_arith);
        assert(num_frames * channels <= bytes_per_sample * (num_frames * channels))
            by (nonlinear_arith)
            requires
                bytes_per_sample >= 1,
                num_frames * channels >= 0,
        ;
    }
    if offset > len || num_frames * frame_size > len - offset {
        return Err(invalid("Data chunk extends past end of file"));
    }
    let total: usize = num_frames * channels;
    let supported: bool = (fmt.audio_format == WAVE_FORMAT_PCM && (fmt.bits_per_sample == 8
        || fmt.bits_per_sample == 16 || fmt.bits_per_sample == 24 || fmt.bits_per_sample == 32))
        || (fmt.audio_format == WAVE_FORMAT_IEEE_FLOAT && fmt.bits_per_sample == 32);
    if total > 0 && !supported {
        let mut m: String = "Unsupported format/depth combination: fmt=".to_string();
        crate::text::append_decimal(&mut m, fmt.audio_format as i64);
        m.append(", bits=");
        crate::text::append_decimal(&mut m, fmt.bits_per_sample as i64);
        return Err(OxiWhisperError::InvalidModel(m));
    }
    let mut samples: Vec<Sample> = Vec::with_capacity(total);
    let mut i: usize = 0;
    while i < total
        invariant
            i <= total,
            offset <= data@.len(),
            total > 0 ==> is_supported(*fmt),
            bytes_per_sample == sample_bytes(*fmt),
            bytes_per_sample * total <= data@.len() - offset,
            samples@.len() == i,
            forall|j: int| 0 <= j < i ==> in_range(#[trigger] samples@[j]),
            forall|j: int|
                0 <= j < i ==> #[trigger] samples@[j] == sample_of(
                    data@.skip(offset as int),
                    *fmt,
                    j,
                ),
        decreases total - i,
    {
        proof {
            assert(bytes_per_sample * (i + 1) <= bytes_per_sample * total) by (nonlinear_arith)
                requires
                    i + 1 <= total,
                    bytes_per_sample >= 0,
            ;
        }
        samples.push(get_sample(data, offset, fmt, i));
        i = i + 1;
    }
    assert(samples@ =~= Seq::new(
        sample_count(*fmt, data_size as nat),
        |i: int| sample_of(body, *fmt, i),
    ));
    Ok(samples)
}

/// The tag of a RIFF file.
pub open spec fn riff_tag() -> Seq<u8> {
    seq![0x52, 0x49, 0x46, 0x46]
}

/// The tag of audio content.
pub open spec fn wave_tag() -> Seq<u8> {
    seq![0x57, 0x41, 0x56, 0x45]
}

/// The tag of a format chunk.
pub open spec fn fmt_tag() -> Seq<u8> {
    seq![0x66, 0x6D, 0x74, 0x20]
}

/// The tag of a data chunk.
pub open spec fn data_tag() -> Seq<u8> {
    seq![0x64, 0x61, 0x74, 0x61]
}

/// The number of bytes that the content of a chunk takes: chunks are padded to an even length.
pub open spec fn padded(size: u32) -> int {
    size + size % 2
}

/// Walks the chunks in `rest` with the last format that was seen, up to the first data chunk.
/// Chunks that are neither format nor data are skipped.
pub open spec fn walk(rest: Seq<u8>, fmt: Option<FmtChunk>) -> Result<
    (FmtChunk, Seq<Sample>),
    WavFailure,
>
    decreases rest.len(),
{
    if rest.len() < 8 {
        Err(WavFailure::NoData)
    } else {
        let tag = rest.take(4);
        let size = crate::le::u32_at(rest, 4);
        let body = rest.skip(8);
        let next = if padded(size) <= body.len() {
            body.skip(padded(size))
        } else {
            Seq::empty()
        };
        if tag == fmt_tag() {
            match fmt_of(body, size) {
                Ok(f) => walk(next, Some(f)),
                Err(e) => Err(e),
            }
        } else if tag == data_tag() {
            match fmt {
                None => Err(WavFailure::DataBeforeFmt),
                Some(f) => match samples_of(
                    body,
                    if size <= body.len() {
                        size as nat
                    } else {
                        body.len()
                    },
                    f,
                ) {
                    Ok(s) => Ok((f, s)),
                    Err(e) => Err(e),
                },
            }
        } else {
            walk(next, fmt)
        }
    }
}

/// The format and the samples of a WAV file.
pub open spec fn wav_of(b: Seq<u8>) -> Result<(FmtChunk, Seq<Sample>), WavFailure> {
    if b.len() < 12 {
        Err(WavFailure::TooSmall)
    } else if b.take(4) != riff_tag() {
        Err(WavFailure::Riff)
    } else if b.subrange(8, 12) != wave_tag() {
        Err(WavFailure::Wave)
    } else {
        walk(b.skip(12), None)
    }
}

/// Parses a RIFF/WAVE byte buffer.
pub fn parse_wav(data: &[u8]) -> (r: Result<WavAudio, OxiWhisperError>)
    ensures
        match wav_of(data@) {
            Ok((f, s)) => r is Ok && r->Ok_0.fmt == f && r->Ok_0.samples@ == s,
            Err(e) => r is Err && reports(r->Err_0, e),
        },
        r is Ok ==> forall|i: int|
            0 <= i < r->Ok_0.samples@.len() ==> in_range(#[trigger] r->Ok_0.samples@[i]),
{
    let len: usize = data.len();
    if len < 12 {
        return Err(invalid("File too small to be a WAV"));
    }
    let riff: [u8; 4] = [0x52, 0x49, 0x46, 0x46];
    let wave: [u8; 4] = [0x57, 0x41, 0x56, 0x45];
    let fmt_bytes: [u8; 4] = [0x66, 0x6D, 0x74, 0x20];
    let data_bytes: [u8; 4] = [0x64, 0x61, 0x74, 0x61];
    proof {
        assert(riff@ =~= riff_tag());
        assert(wave@ =~= wave_tag());
        assert(fmt_bytes@ =~= fmt_tag());
        assert(data_bytes@ =~= data_tag());
        assert(data@.take(4) =~= data@.subrange(0, 4));
    }
    if !tag_matches(data, 0, &riff) {
        return Err(invalid("Missing RIFF header"));
    }
    if !tag_matches(data, 8, &wave) {
        return Err(invalid("Missing WAVE tag"));
    }
    let mut fmt: Option<FmtChunk> = None;
    let mut pos: usize = 12;
    loop
        invariant
            12 <= pos <= len,
            len == data@.len(),
            fmt_bytes@ == fmt_tag(),
            data_bytes@ == data_tag(),
            walk(data@.skip(pos as int), fmt) == wav_of(data@),
        decreases len - pos,
    {
        let ghost rest = data@.skip(pos as int);
        if len - pos < 8 {
            return Err(invalid("No data chunk found in WAV"));
        }
        let chunk_size: u32 = crate::le::get_u32(data, pos + 4);
        let start: usize = pos + 8;
        let ghost body = rest.skip(8);
        proof {
            assert(rest.take(4) =~= data@.subrange(pos as int, pos + 4));
            assert(body =~= data@.skip(start as int));
            assert(rest[4] == data@[pos + 4] && rest[5] == data@[pos + 5] && rest[6] == data@[pos
                + 6] && rest[7] == data@[pos + 7]);
            assert(crate::le::u32_at(rest, 4) == chunk_size);
        }
        if tag_matches(data, pos, &fmt_bytes) {
            match parse_fmt_chunk(data, start, chunk_size) {
                Ok(f) => {
                    fmt = Some(f);
                },
                Err(e) => {
                    return Err(e);
                },
            }
        } else if tag_matches(data, pos, &data_bytes) {
            let f: FmtChunk = match fmt {
                Some(f) => f,
                None => {
                    return Err(invalid("data chunk before fmt chunk"));
                },
            };
            let available: usize = len - start;
            let size: usize = if chunk_size as u64 <= available as u64 {
                chunk_size as usize
            } else {
                available
            };
            return match decode_samples(data, start, size, &f) {
                Ok(samples) => Ok(WavAudio { fmt: f, samples }),
                Err(e) => Err(e),
            };
        }
        let padded_size: u64 = chunk_size as u64 + (chunk_size % 2) as u64;
        if padded_size > (len - start) as u64 {
            proof {
                assert(walk(Seq::empty(), fmt) == Err::<(FmtChunk, Seq<Sample>), WavFailure>(
                    WavFailure::NoData,
                ));
            }
            return Err(invalid("No data chunk found in WAV"));
        }
        pos = start + padded_size as usize;
        assert(data@.skip(pos as int) =~= body.skip(padded(chunk_size)));
    }
}

} // verus!
