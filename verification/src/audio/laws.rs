//! What parsing gives back of WAV files that were put together chunk by chunk.

use crate::audio::wav::{FmtChunk, Sample, WavFailure};
use vstd::prelude::*;

verus! {

/// The bytes of a chunk: tag, length, content, and a pad byte behind content of odd length.
pub open spec fn chunk(tag: Seq<u8>, content: Seq<u8>, pad: u8) -> Seq<u8> {
    tag + crate::le::u32_bytes(content.len() as u32) + content + (if content.len() % 2 == 0 {
        Seq::empty()
    } else {
        seq![pad]
    })
}

/// What a walk sees of a chunk in front of other bytes.
proof fn lemma_chunk(tag: Seq<u8>, content: Seq<u8>, pad: u8, tail: Seq<u8>)
    requires
        tag.len() == 4,
        content.len() <= u32::MAX,
    ensures
        ({
            let rest = chunk(tag, content, pad) + tail;
            &&& rest.len() >= 8
            &&& rest.take(4) == tag
            &&& crate::le::u32_at(rest, 4) == content.len()
            &&& rest.skip(8).len() >= content.len()
            &&& rest.skip(8).take(content.len() as int) == content
            &&& crate::audio::wav::padded(content.len() as u32) <= rest.skip(8).len()
            &&& rest.skip(8).skip(crate::audio::wav::padded(content.len() as u32)) == tail
        }),
{
    let rest = chunk(tag, content, pad) + tail;
    assert(rest.take(4) =~= tag);
    assert(rest.subrange(4, 8) =~= crate::le::u32_bytes(content.len() as u32));
    crate::le::read_back_u32(rest, 4, content.len() as u32);
    assert(rest.skip(8).take(content.len() as int) =~= content);
    assert(rest.skip(8).skip(crate::audio::wav::padded(content.len() as u32)) =~= tail);
}

/// A chunk that is neither format nor data changes nothing.
pub proof fn law_other_chunk_is_skipped(
    tag: Seq<u8>,
    content: Seq<u8>,
    pad: u8,
    tail: Seq<u8>,
    fmt: Option<FmtChunk>,
)
    requires
        tag.len() == 4,
        tag != crate::audio::wav::fmt_tag(),
        tag != crate::audio::wav::data_tag(),
        content.len() <= u32::MAX,
    ensures
        crate::audio::wav::walk(chunk(tag, content, pad) + tail, fmt) == crate::audio::wav::walk(
            tail,
            fmt,
        ),
{
    lemma_chunk(tag, content, pad, tail);
}

/// The content of a format chunk. Byte rate and block alignment are not read.
pub open spec fn fmt_content(f: FmtChunk, byte_rate: u32, block_align: u16) -> Seq<u8> {
    crate::le::u16_bytes(f.audio_format) + crate::le::u16_bytes(f.num_channels)
        + crate::le::u32_bytes(f.sample_rate) + crate::le::u32_bytes(byte_rate)
        + crate::le::u16_bytes(block_align) + crate::le::u16_bytes(f.bits_per_sample)
}

/// A format that can be parsed.
pub open spec fn is_valid(f: FmtChunk) -> bool {
    f.num_channels > 0 && f.sample_rate > 0 && crate::audio::wav::is_supported(f)
}

/// A format chunk gives its format to the chunks behind it.
pub proof fn law_fmt_chunk_is_read(
    f: FmtChunk,
    byte_rate: u32,
    block_align: u16,
    pad: u8,
    tail: Seq<u8>,
    before: Option<FmtChunk>,
)
    requires
        is_valid(f),
    ensures
        crate::audio::wav::walk(
            chunk(crate::audio::wav::fmt_tag(), fmt_content(f, byte_rate, block_align), pad) + tail,
            before,
        ) == crate::audio::wav::walk(tail, Some(f)),
{
    reveal(crate::audio::wav::fmt_of);
    let tag = crate::audio::wav::fmt_tag();
    let content = fmt_content(f, byte_rate, block_align);
    lemma_chunk(tag, content, pad, tail);
    let rest = chunk(tag, content, pad) + tail;
    let body = rest.skip(8);
    assert(content.len() == 16);
    assert(forall|i: int| 0 <= i < 16 ==> #[trigger] body[i] == content[i]) by {
        assert forall|i: int| 0 <= i < 16 implies #[trigger] body[i] == content[i] by {
            assert(body.take(16)[i] == body[i]);
        }
    }
    assert(body.subrange(0, 2) =~= crate::le::u16_bytes(f.audio_format));
    crate::le::read_back_u16(body, 0, f.audio_format);
    assert(body.subrange(2, 4) =~= crate::le::u16_bytes(f.num_channels));
    crate::le::read_back_u16(body, 2, f.num_channels);
    assert(body.subrange(4, 8) =~= crate::le::u32_bytes(f.sample_rate));
    crate::le::read_back_u32(body, 4, f.sample_rate);
    assert(body.subrange(14, 16) =~= crate::le::u16_bytes(f.bits_per_sample));
    crate::le::read_back_u16(body, 14, f.bits_per_sample);
}

/// The low byte of an integer in two's complement.
pub open spec fn low_byte(v: int) -> u8 {
    (v % 0x100) as u8
}

/// Whether a sample can be stored in a format.
pub open spec fn can_store(f: FmtChunk, s: Sample) -> bool {
    match s {
        Sample::Int { value, bits } => {
            &&& f.audio_format == crate::audio::wav::WAVE_FORMAT_PCM
            &&& bits == f.bits_per_sample
            &&& bits == 8 ==> -0x80 <= value < 0x80
            &&& bits == 16 ==> -0x8000 <= value < 0x8000
            &&& bits == 24 ==> -0x80_0000 <= value < 0x80_0000
        },
        Sample::Float { .. } => f.audio_format == crate::audio::wav::WAVE_FORMAT_IEEE_FLOAT,
    }
}

/// The bytes of a sample in a format.
pub open spec fn sample_content(f: FmtChunk, s: Sample) -> Seq<u8> {
    match s {
        Sample::Int { value, .. } => if f.bits_per_sample == 8 {
            seq![(value + 128) as u8]
        } else if f.bits_per_sample == 16 {
            seq![low_byte(value as int), low_byte(value as int / 0x100)]
        } else if f.bits_per_sample == 24 {
            seq![
                low_byte(value as int),
                low_byte(value as int / 0x100),
                low_byte(value as int / 0x1_0000),
            ]
        } else {
            crate::le::i32_bytes(value)
        },
        Sample::Float { pattern } => crate::le::u32_bytes(pattern),
    }
}

/// The bytes of samples, one behind the other.
pub open spec fn data_content(f: FmtChunk, samples: Seq<Sample>) -> Seq<u8> {
    let w = crate::audio::wav::sample_bytes(f);
    Seq::new(
        w * samples.len(),
        |p: int| sample_content(f, samples[p / w as int])[p % w as int],
    )
}

/// Where the bytes of a sample stand.
proof fn lemma_data_content(f: FmtChunk, samples: Seq<Sample>, i: int, j: int)
    requires
        crate::audio::wav::is_supported(f),
        0 <= i < samples.len(),
        0 <= j < crate::audio::wav::sample_bytes(f),
    ensures
        0 <= crate::audio::wav::sample_bytes(f) * i + j < data_content(f, samples).len(),
        data_content(f, samples)[crate::audio::wav::sample_bytes(f) * i + j] == sample_content(
            f,
            samples[i],
        )[j],
{
    let w = crate::audio::wav::sample_bytes(f) as int;
    let n = samples.len() as int;
    assert(0 <= w * i + j < w * n && (w * i + j) / w == i && (w * i + j) % w == j)
        by (nonlinear_arith)
        requires
            0 < w,
            0 <= i < n,
            0 <= j < w,
    ;
}

/// Two bytes hold a 16-bit integer.
proof fn lemma_two_bytes(v: int)
    requires
        -0x8000 <= v < 0x8000,
    ensures
        0 <= low_byte(v) + 0x100 * low_byte(v / 0x100) < 0x1_0000,
        crate::le::signed(low_byte(v) + 0x100 * low_byte(v / 0x100), 0x1_0000) == v,
{
}

/// Three bytes hold a 24-bit integer.
proof fn lemma_three_bytes(v: int)
    requires
        -0x80_0000 <= v < 0x80_0000,
    ensures
        crate::le::signed(
            low_byte(v) + 0x100 * low_byte(v / 0x100) + 0x1_0000 * low_byte(v / 0x1_0000),
            0x100_0000,
        ) == v,
{
    assert(v / 0x1_0000 == v / 0x100 / 0x100);
}

/// The sample that reading gives for a stored one: a floating-point sample within the bounds.
pub open spec fn limited(s: Sample) -> Sample {
    match s {
        Sample::Int { .. } => s,
        Sample::Float { pattern } => Sample::Float { pattern: crate::bits::limited(pattern) },
    }
}

/// The samples that reading gives for stored ones.
pub open spec fn all_limited(samples: Seq<Sample>) -> Seq<Sample> {
    Seq::new(samples.len(), |i: int| limited(samples[i]))
}

/// Samples that lie between -1 and 1 are read as they were stored.
pub proof fn law_samples_in_range_are_kept(samples: Seq<Sample>)
    requires
        forall|i: int|
            0 <= i < samples.len() ==> crate::audio::wav::in_range(#[trigger] samples[i]),
    ensures
        all_limited(samples) == samples,
{
    assert forall|i: int| 0 <= i < samples.len() implies limited(samples[i]) == samples[i] by {
        assert(crate::audio::wav::in_range(samples[i]));
    }
    assert(all_limited(samples) =~= samples);
}

/// A walk gives samples between -1 and 1.
proof fn lemma_walk_in_range(rest: Seq<u8>, fmt: Option<FmtChunk>)
    ensures
        crate::audio::wav::walk(rest, fmt) matches Ok((_, s)) ==> forall|i: int|
            0 <= i < s.len() ==> crate::audio::wav::in_range(#[trigger] s[i]),
    decreases rest.len(),
{
    reveal(crate::audio::wav::samples_of);
    if rest.len() >= 8 {
        let size = crate::le::u32_at(rest, 4);
        let body = rest.skip(8);
        let next = if crate::audio::wav::padded(size) <= body.len() {
            body.skip(crate::audio::wav::padded(size))
        } else {
            Seq::empty()
        };
        lemma_walk_in_range(next, fmt);
        if let Ok(f) = crate::audio::wav::fmt_of(body, size) {
            lemma_walk_in_range(next, Some(f));
        }
    }
}

/// All samples of a WAV file lie between -1 and 1.
pub proof fn law_wav_is_in_range(b: Seq<u8>)
    ensures
        crate::audio::wav::wav_of(b) matches Ok((_, s)) ==> forall|i: int|
            0 <= i < s.len() ==> crate::audio::wav::in_range(#[trigger] s[i]),
{
    if b.len() >= 12 {
        lemma_walk_in_range(b.skip(12), None);
    }
}

/// A sample that was stored is read back, within the bounds.
proof fn lemma_sample_read_back(f: FmtChunk, samples: Seq<Sample>, body: Seq<u8>, i: int)
    requires
        is_valid(f),
        0 <= i < samples.len(),
        can_store(f, samples[i]),
        data_content(f, samples).len() <= body.len(),
        body.take(data_content(f, samples).len() as int) == data_content(f, samples),
    ensures
        crate::audio::wav::sample_of(body, f, i) == limited(samples[i]),
{
    let w = crate::audio::wav::sample_bytes(f) as int;
    let content = sample_content(f, samples[i]);
    let data = data_content(f, samples);
    assert forall|j: int| 0 <= j < w implies #[trigger] body[w * i + j] == content[j] by {
        lemma_data_content(f, samples, i, j);
        assert(body.take(data.len() as int)[w * i + j] == body[w * i + j]);
    }
    lemma_data_content(f, samples, i, w - 1);
    match samples[i] {
        Sample::Int { value, bits } => {
            if bits == 8 {
                assert(w * i == i) by (nonlinear_arith)
                    requires
                        w == 1,
                ;
                assert(body[w * i + 0] == content[0]);
            } else if bits == 16 {
                assert(w * i == 2 * i) by (nonlinear_arith)
                    requires
                        w == 2,
                ;
                assert(body[w * i + 0] == content[0] && body[w * i + 1] == content[1]);
                lemma_two_bytes(value as int);
            } else if bits == 24 {
                assert(w * i == 3 * i) by (nonlinear_arith)
                    requires
                        w == 3,
                ;
                assert(body[w * i + 0] == content[0] && body[w * i + 1] == content[1] && body[w * i
                    + 2] == content[2]);
                lemma_three_bytes(value as int);
            } else {
                assert(w * i == 4 * i) by (nonlinear_arith)
                    requires
                        w == 4,
                ;
                assert(body[w * i + 0] == content[0] && body[w * i + 1] == content[1] && body[w * i
                    + 2] == content[2] && body[w * i + 3] == content[3]);
                assert(body.subrange(4 * i, 4 * i + 4) =~= crate::le::i32_bytes(value));
                crate::le::read_back_i32(body, 4 * i, value);
            }
        },
        Sample::Float { pattern } => {
            assert(w * i == 4 * i) by (nonlinear_arith)
                requires
                    w == 4,
            ;
            assert(body[w * i + 0] == content[0] && body[w * i + 1] == content[1] && body[w * i
                + 2] == content[2] && body[w * i + 3] == content[3]);
            assert(body.subrange(4 * i, 4 * i + 4) =~= crate::le::u32_bytes(pattern));
            crate::le::read_back_u32(body, 4 * i, pattern);
        },
    }
}

/// A data chunk gives the samples that were stored in it, those of floating point within the
/// bounds, whatever stands behind it.
pub proof fn law_data_chunk_is_read(
    f: FmtChunk,
    samples: Seq<Sample>,
    pad: u8,
    tail: Seq<u8>,
)
    requires
        is_valid(f),
        forall|i: int| 0 <= i < samples.len() ==> can_store(f, #[trigger] samples[i]),
        samples.len() % f.num_channels as nat == 0,
        data_content(f, samples).len() <= u32::MAX,
    ensures
        crate::audio::wav::walk(
            chunk(crate::audio::wav::data_tag(), data_content(f, samples), pad) + tail,
            Some(f),
        ) == Ok::<(FmtChunk, Seq<Sample>), WavFailure>((f, all_limited(samples))),
{
    reveal(crate::audio::wav::samples_of);
    let tag = crate::audio::wav::data_tag();
    let content = data_content(f, samples);
    lemma_chunk(tag, content, pad, tail);
    let rest = chunk(tag, content, pad) + tail;
    let body = rest.skip(8);
    let w = crate::audio::wav::sample_bytes(f);
    let c = f.num_channels as nat;
    let n = samples.len();
    assert(tag != crate::audio::wav::fmt_tag()) by {
        assert(tag[0] != crate::audio::wav::fmt_tag()[0]);
    }
    assert((w * n) / (w * c) == n / c && (w * n) / (w * c) * (w * c) == w * n && n / c * c == n)
        by (nonlinear_arith)
        requires
            w > 0,
            c > 0,
            n % c == 0,
    {
        let k = n / c;
        assert(n == k * c);
        assert(w * n == k * (w * c));
        assert((k * (w * c)) / (w * c) == k);
    }
    let read = Seq::new(n, |i: int| crate::audio::wav::sample_of(body, f, i));
    assert forall|i: int| 0 <= i < n implies read[i] == limited(samples[i]) by {
        lemma_sample_read_back(f, samples, body, i);
    }
    assert(read =~= all_limited(samples));
    assert(w * c > 0) by (nonlinear_arith)
        requires
            w > 0,
            c > 0,
    ;
}

/// Chunks that are neither format nor data.
pub open spec fn are_others(others: Seq<(Seq<u8>, Seq<u8>)>) -> bool {
    forall|i: int|
        0 <= i < others.len() ==> {
            &&& (#[trigger] others[i]).0.len() == 4
            &&& others[i].0 != crate::audio::wav::fmt_tag()
            &&& others[i].0 != crate::audio::wav::data_tag()
            &&& others[i].1.len() <= u32::MAX
        }
}

/// The bytes of chunks, one behind the other.
pub open spec fn chunks(list: Seq<(Seq<u8>, Seq<u8>)>, pad: u8) -> Seq<u8>
    decreases list.len(),
{
    if list.len() == 0 {
        Seq::empty()
    } else {
        chunk(list[0].0, list[0].1, pad) + chunks(list.skip(1), pad)
    }
}

/// Any number of other chunks changes nothing.
proof fn lemma_others_are_skipped(
    others: Seq<(Seq<u8>, Seq<u8>)>,
    pad: u8,
    tail: Seq<u8>,
    fmt: Option<FmtChunk>,
)
    requires
        are_others(others),
    ensures
        crate::audio::wav::walk(chunks(others, pad) + tail, fmt) == crate::audio::wav::walk(
            tail,
            fmt,
        ),
    decreases others.len(),
{
    if others.len() == 0 {
        assert(chunks(others, pad) + tail =~= tail);
    } else {
        let first = chunk(others[0].0, others[0].1, pad);
        let later = chunks(others.skip(1), pad);
        assert(are_others(others.skip(1))) by {
            assert forall|i: int| 0 <= i < others.skip(1).len() implies {
                &&& (#[trigger] others.skip(1)[i]).0.len() == 4
                &&& others.skip(1)[i].0 != crate::audio::wav::fmt_tag()
                &&& others.skip(1)[i].0 != crate::audio::wav::data_tag()
                &&& others.skip(1)[i].1.len() <= u32::MAX
            } by {
                assert(others.skip(1)[i] == others[i + 1]);
            }
        }
        lemma_others_are_skipped(others.skip(1), pad, tail, fmt);
        law_other_chunk_is_skipped(others[0].0, others[0].1, pad, later + tail, fmt);
        assert(chunks(others, pad) + tail =~= first + (later + tail));
    }
}

/// A WAV file with a format chunk, any other chunks, and a data chunk gives its format and its
/// samples back, those of floating point within the bounds. The size in its header, the padding
/// and what follows the data do not matter.
pub proof fn law_wav_reads_back(
    f: FmtChunk,
    samples: Seq<Sample>,
    riff_size: u32,
    byte_rate: u32,
    block_align: u16,
    others: Seq<(Seq<u8>, Seq<u8>)>,
    pad: u8,
    tail: Seq<u8>,
)
    requires
        is_valid(f),
        forall|i: int| 0 <= i < samples.len() ==> can_store(f, #[trigger] samples[i]),
        samples.len() % f.num_channels as nat == 0,
        data_content(f, samples).len() <= u32::MAX,
        are_others(others),
    ensures
        crate::audio::wav::wav_of(
            crate::audio::wav::riff_tag() + crate::le::u32_bytes(riff_size)
                + crate::audio::wav::wave_tag() + (chunk(
                crate::audio::wav::fmt_tag(),
                fmt_content(f, byte_rate, block_align),
                pad,
            ) + (chunks(others, pad) + (chunk(
                crate::audio::wav::data_tag(),
                data_content(f, samples),
                pad,
            ) + tail))),
        ) == Ok::<(FmtChunk, Seq<Sample>), WavFailure>((f, all_limited(samples))),
{
    let data = chunk(crate::audio::wav::data_tag(), data_content(f, samples), pad) + tail;
    let middle = chunks(others, pad) + data;
    let all = chunk(
        crate::audio::wav::fmt_tag(),
        fmt_content(f, byte_rate, block_align),
        pad,
    ) + middle;
    let b = crate::audio::wav::riff_tag() + crate::le::u32_bytes(riff_size)
        + crate::audio::wav::wave_tag() + all;
    assert(b.take(4) =~= crate::audio::wav::riff_tag());
    assert(b.subrange(8, 12) =~= crate::audio::wav::wave_tag());
    assert(b.skip(12) =~= all);
    law_fmt_chunk_is_read(f, byte_rate, block_align, pad, middle, None);
    lemma_others_are_skipped(others, pad, data, Some(f));
    law_data_chunk_is_read(f, samples, pad, tail);
}

/// Only formats that can be decoded are accepted: at least one channel and a rate above zero, integers
/// of 8, 16, 24 or 32 bits or floating point of 32 bits, as the bytes of the chunk say.
pub proof fn law_only_valid_formats_are_accepted(body: Seq<u8>, size: u32)
    ensures
        crate::audio::wav::fmt_of(body, size) matches Ok(f) ==> {
            &&& f.num_channels > 0
            &&& f.sample_rate > 0
            &&& f.audio_format == 1 || f.audio_format == 3
            &&& f.audio_format == 1 ==> f.bits_per_sample == 8 || f.bits_per_sample == 16
                || f.bits_per_sample == 24 || f.bits_per_sample == 32
            &&& f.audio_format == 3 ==> f.bits_per_sample == 32
            &&& size >= 16
            &&& body.len() >= 16
            &&& f.audio_format == body[0] + 256 * body[1]
            &&& f.num_channels == body[2] + 256 * body[3]
            &&& f.sample_rate == body[4] + 256 * body[5] + 65536 * body[6] + 16777216 * body[7]
            &&& f.bits_per_sample == body[14] + 256 * body[15]
        },
{
    reveal(crate::audio::wav::fmt_of);
}

/// A data chunk whose file ends early gives the samples of the whole frames that are there: as if its
/// size were the number of bytes left.
pub proof fn law_cut_data_gives_whole_frames(f: FmtChunk, size: u32, left: Seq<u8>)
    requires
        left.len() < size,
    ensures
        crate::audio::wav::walk(
            crate::audio::wav::data_tag() + crate::le::u32_bytes(size) + left,
            Some(f),
        ) == crate::audio::wav::walk(
            crate::audio::wav::data_tag() + crate::le::u32_bytes(left.len() as u32) + left,
            Some(f),
        ),
{
    let tag = crate::audio::wav::data_tag();
    assert(tag != crate::audio::wav::fmt_tag()) by {
        assert(tag[0] != crate::audio::wav::fmt_tag()[0]);
    }
    let long = tag + crate::le::u32_bytes(size) + left;
    let short = tag + crate::le::u32_bytes(left.len() as u32) + left;
    assert(long.take(4) =~= tag && short.take(4) =~= tag);
    assert(long.skip(8) =~= left && short.skip(8) =~= left);
    assert(long.subrange(4, 8) =~= crate::le::u32_bytes(size));
    assert(short.subrange(4, 8) =~= crate::le::u32_bytes(left.len() as u32));
    crate::le::read_back_u32(long, 4, size);
    crate::le::read_back_u32(short, 4, left.len() as u32);
}

/// A data chunk without a format before it is refused, and so is a file without a data chunk or
/// without the tags of a WAV file.
pub proof fn law_incomplete_files_are_refused(b: Seq<u8>)
    ensures
        b.len() < 12 ==> crate::audio::wav::wav_of(b) is Err,
        b.len() >= 12 && b.take(4) != seq![0x52u8, 0x49, 0x46, 0x46] ==> crate::audio::wav::wav_of(
            b,
        ) is Err,
        b.len() >= 12 && b.subrange(8, 12) != seq![0x57u8, 0x41, 0x56, 0x45]
            ==> crate::audio::wav::wav_of(b) is Err,
        b.len() < 8 ==> crate::audio::wav::walk(b, None) is Err,
        b.len() >= 8 && b.take(4) == seq![0x64u8, 0x61, 0x74, 0x61] ==> crate::audio::wav::walk(
            b,
            None,
        ) is Err,
{
    assert(crate::audio::wav::data_tag()[0] != crate::audio::wav::fmt_tag()[0]);
}

} // verus!
