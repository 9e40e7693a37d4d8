//! From samples to a 16 kHz mono signal.

use crate::audio::wav::{parse_wav, Sample, WavAudio};
use crate::types::OxiWhisperError;
use core::ops::{Add, Div, Mul, Sub};
use vstd::prelude::*;
use vstd::slice::slice_to_vec;

verus! {

/// Sample rate of the signal.
pub const TARGET_SAMPLE_RATE: u32 = 16000;

/// The functions of numbers that a signal rests on. `T` is the type of its values, `D` the wider
/// one of positions.
pub struct AudioMath<T, A, B, W, C, F, N> {
    /// The additive zero.
    pub zero: T,
    /// The multiplicative one.
    pub one: T,
    /// The number of an integer.
    pub from_int: A,
    /// The number of a bit pattern.
    pub from_bits: B,
    /// The position of an integer.
    pub widen: W,
    /// The least integer at or above a position.
    pub ceil: C,
    /// The greatest integer at or below a position.
    pub floor: F,
    /// The number of a position.
    pub narrow: N,
}

impl<
    T: Add<Output = T> + Sub<Output = T> + Mul<Output = T> + Div<Output = T>,
    A: Fn(i64) -> T,
    B: Fn(u32) -> T,
    W,
    C,
    F,
    N,
> AudioMath<T, A, B, W, C, F, N> {
    /// Every function accepts every argument, and the constants are what they are for.
    pub open spec fn total<D: Sub<Output = D> + Mul<Output = D> + Div<Output = D>>(
        &self,
    ) -> bool where
        W: Fn(usize) -> D,
        C: Fn(D) -> usize,
        F: Fn(D) -> usize,
        N: Fn(D) -> T,
     {
        &&& forall|n: i64| #[trigger] call_requires(self.from_int, (n,))
        &&& forall|b: u32| #[trigger] call_requires(self.from_bits, (b,))
        &&& forall|n: usize| #[trigger] call_requires(self.widen, (n,))
        &&& forall|d: D| #[trigger] call_requires(self.ceil, (d,))
        &&& forall|d: D| #[trigger] call_requires(self.floor, (d,))
        &&& forall|d: D| #[trigger] call_requires(self.narrow, (d,))
        &&& call_ensures(self.from_bits, (crate::bits::ZERO_BITS,), self.zero)
        &&& call_ensures(self.from_bits, (crate::bits::ONE_BITS,), self.one)
        &&& crate::num::total_add::<T>()
        &&& crate::num::total_sub::<T>()
        &&& crate::num::total_mul::<T>()
        &&& crate::num::total_div::<T>()
        &&& crate::num::total_sub::<D>()
        &&& crate::num::total_mul::<D>()
        &&& crate::num::total_div::<D>()
    }

    /// Takes the functions, and computes the constants from them.
    pub fn new<D: Sub<Output = D> + Mul<Output = D> + Div<Output = D>>(
        from_int: A,
        from_bits: B,
        widen: W,
        ceil: C,
        floor: F,
        narrow: N,
    ) -> (r: Self) where
        W: Fn(usize) -> D,
        C: Fn(D) -> usize,
        F: Fn(D) -> usize,
        N: Fn(D) -> T,

        requires
            forall|n: i64| #[trigger] call_requires(from_int, (n,)),
            forall|b: u32| #[trigger] call_requires(from_bits, (b,)),
            forall|n: usize| #[trigger] call_requires(widen, (n,)),
            forall|d: D| #[trigger] call_requires(ceil, (d,)),
            forall|d: D| #[trigger] call_requires(floor, (d,)),
            forall|d: D| #[trigger] call_requires(narrow, (d,)),
            crate::num::total_add::<T>(),
            crate::num::total_sub::<T>(),
            crate::num::total_mul::<T>(),
            crate::num::total_div::<T>(),
            crate::num::total_sub::<D>(),
            crate::num::total_mul::<D>(),
            crate::num::total_div::<D>(),
        ensures
            r.total::<D>(),
            r.from_int == from_int,
            r.from_bits == from_bits,
            r.widen == widen,
            r.ceil == ceil,
            r.floor == floor,
            r.narrow == narrow,
    {
        let zero: T = from_bits(crate::bits::ZERO_BITS);
        let one: T = from_bits(crate::bits::ONE_BITS);
        AudioMath { zero, one, from_int, from_bits, widen, ceil, floor, narrow }
    }
}

/// `m` is the mean of a frame: the sum of its channels times their inverse number.
pub open spec fn is_mean<T: Add<Output = T> + Mul<Output = T>>(
    zero: T,
    inverse: T,
    frame: Seq<T>,
    m: T,
) -> bool {
    exists|s: T| #[trigger]
        crate::num::sum_of(zero, frame, s) && crate::num::is_product(s, inverse, m)
}

/// `mono` holds the means of the whole frames of `samples`.
pub open spec fn are_means<T: Add<Output = T> + Mul<Output = T>>(
    zero: T,
    inverse: T,
    samples: Seq<T>,
    channels: u16,
    mono: Seq<T>,
) -> bool {
    &&& mono.len() == samples.len() / channels as nat
    &&& forall|f: int|
        0 <= f < mono.len() ==> is_mean(
            zero,
            inverse,
            samples.subrange(f * channels, f * channels + channels),
            #[trigger] mono[f],
        )
}

/// `mono` is the downmix of interleaved samples: themselves for at most one channel, else the
/// means of the whole frames.
pub open spec fn is_downmix<
    T: Add<Output = T> + Mul<Output = T> + Div<Output = T>,
    A: Fn(i64) -> T,
>(zero: T, one: T, from_int: A, samples: Seq<T>, channels: u16, mono: Seq<T>) -> bool {
    if channels <= 1 {
        mono == samples
    } else {
        exists|inv: T| #[trigger]
            is_inverse(one, from_int, channels, inv) && are_means(
                zero,
                inv,
                samples,
                channels,
                mono,
            )
    }
}

/// `inv` is one divided by a number of channels.
pub open spec fn is_inverse<T: Div<Output = T>, A: Fn(i64) -> T>(
    one: T,
    from_int: A,
    channels: u16,
    inv: T,
) -> bool {
    exists|n: T| #[trigger]
        call_ensures(from_int, (channels as i64,), n) && crate::num::is_quotient(one, n, inv)
}

/// Downmix interleaved multi-channel samples to mono by averaging channels.
pub fn downmix_to_mono<
    T: Copy + Add<Output = T> + Mul<Output = T> + Div<Output = T>,
    A: Fn(i64) -> T,
>(samples: &[T], channels: u16, zero: T, one: T, from_int: &A) -> (mono: Vec<T>)
    requires
        forall|n: i64| #[trigger] call_requires(*from_int, (n,)),
        crate::num::total_add::<T>(),
        crate::num::total_mul::<T>(),
        crate::num::total_div::<T>(),
    ensures
        is_downmix(zero, one, *from_int, samples@, channels, mono@),
{
    if channels <= 1 {
        return slice_to_vec(samples);
    }
    let n: T = from_int(channels as i64);
    let inv: T = one / n;
    assert(is_inverse(one, *from_int, channels, inv));
    let len: usize = samples.len();
    let width: usize = channels as usize;
    let num_frames: usize = len / width;
    let mut mono: Vec<T> = Vec::with_capacity(num_frames);
    let mut frame: usize = 0;
    while frame < num_frames
        invariant
            frame <= num_frames,
            width == channels,
            width > 1,
            len == samples@.len(),
            num_frames == len / width,
            crate::num::total_add::<T>(),
            crate::num::total_mul::<T>(),
            mono@.len() == frame,
            forall|f: int|
                0 <= f < frame ==> is_mean(
                    zero,
                    inv,
                    samples@.subrange(f * channels, f * channels + channels),
                    #[trigger] mono@[f],
                ),
        decreases num_frames - frame,
    {
        proof {
            assert(0 <= frame * width && frame * width + width <= len) by (nonlinear_arith)
                requires
                    0 <= frame < len / width,
                    width > 1,
            ;
        }
        let base: usize = frame * width;
        let s: T = crate::num::sum(&samples[base..base + width], zero);
        let m: T = s * inv;
        assert(is_mean(zero, inv, samples@.subrange(base as int, base + width), m));
        mono.push(m);
        frame = frame + 1;
    }
    assert(are_means(zero, inv, samples@, channels, mono@));
    mono
}

/// `r` lies between `a` and `b` at the fraction `frac`.
pub open spec fn is_blend<T: Add<Output = T> + Sub<Output = T> + Mul<Output = T>>(
    one: T,
    a: T,
    b: T,
    frac: T,
    r: T,
) -> bool {
    exists|d: T, x: T, y: T| #[trigger]
        crate::num::is_product(a, d, x) && #[trigger] crate::num::is_product(b, frac, y)
            && crate::num::is_difference(one, frac, d) && crate::num::is_sum(x, y, r)
}

/// `r` is the signal's value at a position: the last sample at or behind it, else the blend of
/// the samples around the position.
pub open spec fn is_value_at<T: Add<Output = T> + Sub<Output = T> + Mul<Output = T>>(
    one: T,
    samples: Seq<T>,
    at: (usize, T),
    r: T,
) -> bool {
    if at.0 >= samples.len() - 1 {
        r == samples[samples.len() - 1]
    } else {
        is_blend(one, samples[at.0 as int], samples[at.0 + 1], at.1, r)
    }
}

/// `ratio` is the number of samples of a signal per output sample.
pub open spec fn is_ratio<D: Div<Output = D>, W: Fn(usize) -> D>(
    widen: W,
    rate: u32,
    ratio: D,
) -> bool {
    exists|r: D, t: D| #[trigger]
        call_ensures(widen, (rate as usize,), r) && #[trigger] call_ensures(
            widen,
            (TARGET_SAMPLE_RATE as usize,),
            t,
        ) && crate::num::is_quotient(r, t, ratio)
}

/// `n` is the number of output samples for `len` samples.
pub open spec fn is_output_len<D: Div<Output = D>, W: Fn(usize) -> D, C: Fn(D) -> usize>(
    widen: W,
    ceil: C,
    ratio: D,
    len: int,
    n: int,
) -> bool {
    exists|l: D, q: D| #[trigger]
        call_ensures(widen, (len as usize,), l) && #[trigger] crate::num::is_quotient(l, ratio, q)
            && 0 <= n <= usize::MAX && call_ensures(ceil, (q,), n as usize)
}

/// `at` is the position of output sample `i`: the sample at or before it, and the fraction of the
/// way to the next one.
pub open spec fn is_position<
    T,
    D: Sub<Output = D> + Mul<Output = D>,
    W: Fn(usize) -> D,
    F: Fn(D) -> usize,
    N: Fn(D) -> T,
>(widen: W, floor: F, narrow: N, ratio: D, i: usize, at: (usize, T)) -> bool {
    exists|k: D, p: D, w: D, d: D| #[trigger]
        position_by(widen, floor, narrow, ratio, i, at, k, p, w, d)
}

/// How a position comes about: the output sample `k`, its place `p` among the samples, the sample
/// `w` at or before it, and the distance `d` between both.
pub open spec fn position_by<
    T,
    D: Sub<Output = D> + Mul<Output = D>,
    W: Fn(usize) -> D,
    F: Fn(D) -> usize,
    N: Fn(D) -> T,
>(widen: W, floor: F, narrow: N, ratio: D, i: usize, at: (usize, T), k: D, p: D, w: D, d: D) -> bool {
    &&& call_ensures(widen, (i,), k)
    &&& crate::num::is_product(k, ratio, p)
    &&& call_ensures(floor, (p,), at.0)
    &&& call_ensures(widen, (at.0,), w)
    &&& crate::num::is_difference(p, w, d)
    &&& call_ensures(narrow, (d,), at.1)
}

/// `out` is the signal's value number `i` of the output.
pub open spec fn is_resampled_value<
    T: Add<Output = T> + Sub<Output = T> + Mul<Output = T> + Div<Output = T>,
    D: Sub<Output = D> + Mul<Output = D> + Div<Output = D>,
    W: Fn(usize) -> D,
    F: Fn(D) -> usize,
    N: Fn(D) -> T,
>(
    one: T,
    widen: W,
    floor: F,
    narrow: N,
    ratio: D,
    samples: Seq<T>,
    i: int,
    out: T,
) -> bool {
    exists|at: (usize, T)| #[trigger]
        is_position(widen, floor, narrow, ratio, i as usize, at) && is_value_at(
            one,
            samples,
            at,
            out,
        )
}

/// `out` holds the signal's values at the positions of the output samples.
pub open spec fn are_resampled_values<
    T: Add<Output = T> + Sub<Output = T> + Mul<Output = T> + Div<Output = T>,
    D: Sub<Output = D> + Mul<Output = D> + Div<Output = D>,
    A: Fn(i64) -> T,
    B: Fn(u32) -> T,
    W: Fn(usize) -> D,
    C: Fn(D) -> usize,
    F: Fn(D) -> usize,
    N: Fn(D) -> T,
>(math: AudioMath<T, A, B, W, C, F, N>, ratio: D, samples: Seq<T>, out: Seq<T>) -> bool {
    &&& is_output_len(math.widen, math.ceil, ratio, samples.len() as int, out.len() as int)
    &&& forall|i: int|
        0 <= i < out.len() ==> is_resampled_value(
            math.one,
            math.widen,
            math.floor,
            math.narrow,
            ratio,
            samples,
            i,
            #[trigger] out[i],
        )
}

/// `out` is the signal at 16 kHz: unchanged if it has that rate or is empty, else its values at
/// the positions of the output samples.
pub open spec fn is_resampled<
    T: Add<Output = T> + Sub<Output = T> + Mul<Output = T> + Div<Output = T>,
    D: Sub<Output = D> + Mul<Output = D> + Div<Output = D>,
    A: Fn(i64) -> T,
    B: Fn(u32) -> T,
    W: Fn(usize) -> D,
    C: Fn(D) -> usize,
    F: Fn(D) -> usize,
    N: Fn(D) -> T,
>(math: AudioMath<T, A, B, W, C, F, N>, samples: Seq<T>, rate: u32, out: Seq<T>) -> bool {
    if rate == TARGET_SAMPLE_RATE || samples.len() == 0 {
        out == samples
    } else {
        exists|ratio: D| #[trigger]
            are_resampled_values(math, ratio, samples, out) && is_ratio(math.widen, rate, ratio)
    }
}

/// The position of output sample `i`.
fn find_position<
    T: Copy + Add<Output = T> + Sub<Output = T> + Mul<Output = T> + Div<Output = T>,
    D: Copy + Sub<Output = D> + Mul<Output = D> + Div<Output = D>,
    A: Fn(i64) -> T,
    B: Fn(u32) -> T,
    W: Fn(usize) -> D,
    C: Fn(D) -> usize,
    F: Fn(D) -> usize,
    N: Fn(D) -> T,
>(math: &AudioMath<T, A, B, W, C, F, N>, ratio: D, i: usize) -> (at: (usize, T))
    requires
        math.total::<D>(),
    ensures
        is_position(math.widen, math.floor, math.narrow, ratio, i, at),
{
    let k: D = (math.widen)(i);
    let p: D = k * ratio;
    let idx: usize = (math.floor)(p);
    let w: D = (math.widen)(idx);
    let d: D = p - w;
    let frac: T = (math.narrow)(d);
    assert(position_by(
        math.widen,
        math.floor,
        math.narrow,
        ratio,
        i,
        (idx, frac),
        k,
        p,
        w,
        d,
    ));
    (idx, frac)
}

/// Resample mono audio to 16 kHz using linear interpolation.
pub fn resample_linear<
    T: Copy + Add<Output = T> + Sub<Output = T> + Mul<Output = T> + Div<Output = T>,
    D: Copy + Sub<Output = D> + Mul<Output = D> + Div<Output = D>,
    A: Fn(i64) -> T,
    B: Fn(u32) -> T,
    W: Fn(usize) -> D,
    C: Fn(D) -> usize,
    F: Fn(D) -> usize,
    N: Fn(D) -> T,
>(math: &AudioMath<T, A, B, W, C, F, N>, samples: &[T], source_rate: u32) -> (out: Vec<T>)
    requires
        math.total::<D>(),
    ensures
        is_resampled(*math, samples@, source_rate, out@),
{
    if source_rate == TARGET_SAMPLE_RATE || samples.len() == 0 {
        return slice_to_vec(samples);
    }
    let len: usize = samples.len();
    let last: usize = len - 1;
    let r: D = (math.widen)(source_rate as usize);
    let t: D = (math.widen)(TARGET_SAMPLE_RATE as usize);
    let ratio: D = r / t;
    assert(is_ratio(math.widen, source_rate, ratio));
    let l: D = (math.widen)(len);
    let q: D = l / ratio;
    let output_len: usize = (math.ceil)(q);
    assert(crate::num::is_quotient(l, ratio, q));
    assert(call_ensures(math.widen, ((len as int) as usize,), l));
    assert(call_ensures(math.ceil, (q,), (output_len as int) as usize));
    assert(is_output_len(math.widen, math.ceil, ratio, len as int, output_len as int));
    let mut out: Vec<T> = Vec::with_capacity(output_len);
    let mut i: usize = 0;
    while i < output_len
        invariant
            i <= output_len,
            len == samples@.len(),
            len > 0,
            last == len - 1,
            math.total::<D>(),
            out@.len() == i,
            forall|j: int|
                0 <= j < i ==> is_resampled_value(
                    math.one,
                    math.widen,
                    math.floor,
                    math.narrow,
                    ratio,
                    samples@,
                    j,
                    #[trigger] out@[j],
                ),
        decreases output_len - i,
    {
        let at: (usize, T) = find_position(math, ratio, i);
        let (idx, frac) = at;
        let value: T = if idx >= last {
            samples[last]
        } else {
            let a: T = samples[idx];
            let b: T = samples[idx + 1];
            let d: T = math.one - frac;
            let x: T = a * d;
            let y: T = b * frac;
            let r: T = x + y;
            assert(crate::num::is_product(a, d, x) && crate::num::is_product(b, frac, y));
            assert(is_blend(math.one, a, b, frac, r));
            r
        };
        assert(is_value_at(math.one, samples@, at, value));
        assert(is_position(math.widen, math.floor, math.narrow, ratio, (i as int) as usize, at));
        out.push(value);
        i = i + 1;
    }
    assert(are_resampled_values(*math, ratio, samples@, out@));
    out
}

/// The divisor that brings integers of so many bits between -1 and 1.
pub open spec fn full_scale(bits: u16) -> i64 {
    if bits == 8 {
        128
    } else if bits == 16 {
        32768
    } else if bits == 24 {
        8388608
    } else {
        2147483648
    }
}

/// `x` is the number that a sample stands for: an integer divided by the full scale of its bits,
/// or the number of its bit pattern.
pub open spec fn is_converted<T: Div<Output = T>, A: Fn(i64) -> T, B: Fn(u32) -> T>(
    from_int: A,
    from_bits: B,
    sample: Sample,
    x: T,
) -> bool {
    match sample {
        Sample::Int { value, bits } => exists|v: T, s: T| #[trigger]
            call_ensures(from_int, (value as i64,), v) && #[trigger] call_ensures(
                from_int,
                (full_scale(bits),),
                s,
            ) && crate::num::is_quotient(v, s, x),
        Sample::Float { pattern } => call_ensures(from_bits, (pattern,), x),
    }
}

/// The number that a sample stands for.
pub fn convert_sample<T: Copy + Div<Output = T>, A: Fn(i64) -> T, B: Fn(u32) -> T>(
    from_int: &A,
    from_bits: &B,
    sample: Sample,
) -> (x: T)
    requires
        forall|n: i64| #[trigger] call_requires(*from_int, (n,)),
        forall|b: u32| #[trigger] call_requires(*from_bits, (b,)),
        crate::num::total_div::<T>(),
    ensures
        is_converted(*from_int, *from_bits, sample, x),
{
    match sample {
        Sample::Int { value, bits } => {
            let full: i64 = match bits {
                8 => 128,
                16 => 32768,
                24 => 8388608,
                _ => 2147483648,
            };
            let v: T = from_int(value as i64);
            let s: T = from_int(full);
            let x: T = v / s;
            assert(call_ensures(*from_int, (value as i64,), v));
            assert(call_ensures(*from_int, (full_scale(bits),), s));
            x
        },
        Sample::Float { pattern } => from_bits(pattern),
    }
}

/// `x` holds the numbers that `samples` stand for.
pub open spec fn are_converted<T: Div<Output = T>, A: Fn(i64) -> T, B: Fn(u32) -> T>(
    from_int: A,
    from_bits: B,
    samples: Seq<Sample>,
    x: Seq<T>,
) -> bool {
    &&& x.len() == samples.len()
    &&& forall|i: int|
        0 <= i < x.len() ==> is_converted(from_int, from_bits, samples[i], #[trigger] x[i])
}

/// `out` is the 16 kHz mono signal of interleaved numbers.
pub open spec fn is_signal<
    T: Add<Output = T> + Sub<Output = T> + Mul<Output = T> + Div<Output = T>,
    D: Sub<Output = D> + Mul<Output = D> + Div<Output = D>,
    A: Fn(i64) -> T,
    B: Fn(u32) -> T,
    W: Fn(usize) -> D,
    C: Fn(D) -> usize,
    F: Fn(D) -> usize,
    N: Fn(D) -> T,
>(
    math: AudioMath<T, A, B, W, C, F, N>,
    samples: Seq<T>,
    rate: u32,
    channels: u16,
    out: Seq<T>,
) -> bool {
    exists|mono: Seq<T>| #[trigger]
        is_downmix(math.zero, math.one, math.from_int, samples, channels, mono) && is_resampled(
            math,
            mono,
            rate,
            out,
        )
}

/// `out` is the signal that the bytes of a WAV file hold: that of the numbers of its samples, at its
/// rate and with its channels.
pub open spec fn is_loaded<
    T: Add<Output = T> + Sub<Output = T> + Mul<Output = T> + Div<Output = T>,
    D: Sub<Output = D> + Mul<Output = D> + Div<Output = D>,
    A: Fn(i64) -> T,
    B: Fn(u32) -> T,
    W: Fn(usize) -> D,
    C: Fn(D) -> usize,
    F: Fn(D) -> usize,
    N: Fn(D) -> T,
>(math: AudioMath<T, A, B, W, C, F, N>, data: Seq<u8>, out: Seq<T>) -> bool {
    crate::audio::wav::wav_of(data) matches Ok((f, s)) && exists|x: Seq<T>| #[trigger]
        are_converted(math.from_int, math.from_bits, s, x) && is_signal(
            math,
            x,
            f.sample_rate,
            f.num_channels,
            out,
        )
}

/// Load WAV audio from bytes and return it as a 16 kHz mono signal between -1 and 1.
pub fn load_wav_from_bytes<
    T: Copy + Add<Output = T> + Sub<Output = T> + Mul<Output = T> + Div<Output = T>,
    D: Copy + Sub<Output = D> + Mul<Output = D> + Div<Output = D>,
    A: Fn(i64) -> T,
    B: Fn(u32) -> T,
    W: Fn(usize) -> D,
    C: Fn(D) -> usize,
    F: Fn(D) -> usize,
    N: Fn(D) -> T,
>(math: &AudioMath<T, A, B, W, C, F, N>, data: &[u8]) -> (r: Result<Vec<T>, OxiWhisperError>)
    requires
        math.total::<D>(),
    ensures
        match crate::audio::wav::wav_of(data@) {
            Ok((f, s)) => r is Ok && exists|x: Seq<T>| #[trigger]
                are_converted(math.from_int, math.from_bits, s, x) && is_signal(
                    *math,
                    x,
                    f.sample_rate,
                    f.num_channels,
                    r->Ok_0@,
                ),
            Err(e) => r is Err && crate::audio::wav::reports(r->Err_0, e),
        },
        r is Ok ==> is_loaded(*math, data@, r->Ok_0@),
{
    let audio: WavAudio = match parse_wav(data) {
        Ok(a) => a,
        Err(e) => {
            return Err(e);
        },
    };
    let mut x: Vec<T> = Vec::with_capacity(audio.samples.len());
    let mut i: usize = 0;
    while i < audio.samples.len()
        invariant
            i <= audio.samples@.len(),
            math.total::<D>(),
            x@.len() == i,
            forall|j: int|
                0 <= j < i ==> is_converted(
                    math.from_int,
                    math.from_bits,
                    audio.samples@[j],
                    #[trigger] x@[j],
                ),
        decreases audio.samples@.len() - i,
    {
        x.push(convert_sample(&math.from_int, &math.from_bits, audio.samples[i]));
        i = i + 1;
    }
    assert(are_converted(math.from_int, math.from_bits, audio.samples@, x@));
    let out: Vec<T> = load_raw_pcm(
        math,
        x.as_slice(),
        audio.fmt.sample_rate,
        audio.fmt.num_channels,
    );
    Ok(out)
}

/// Convert interleaved numbers (possibly multi-channel and/or of a different sample rate) into a
/// 16 kHz mono signal.
pub fn load_raw_pcm<
    T: Copy + Add<Output = T> + Sub<Output = T> + Mul<Output = T> + Div<Output = T>,
    D: Copy + Sub<Output = D> + Mul<Output = D> + Div<Output = D>,
    A: Fn(i64) -> T,
    B: Fn(u32) -> T,
    W: Fn(usize) -> D,
    C: Fn(D) -> usize,
    F: Fn(D) -> usize,
    N: Fn(D) -> T,
>(
    math: &AudioMath<T, A, B, W, C, F, N>,
    samples: &[T],
    sample_rate: u32,
    channels: u16,
) -> (out: Vec<T>)
    requires
        math.total::<D>(),
    ensures
        is_signal(*math, samples@, sample_rate, channels, out@),
{
    let mono: Vec<T> = downmix_to_mono(samples, channels, math.zero, math.one, &math.from_int);
    resample_linear(math, mono.as_slice(), sample_rate)
}

/// Mono audio at 16 kHz passes unchanged, whatever the functions of numbers are.
pub proof fn law_mono_16k_passes<
    T: Add<Output = T> + Sub<Output = T> + Mul<Output = T> + Div<Output = T>,
    D: Sub<Output = D> + Mul<Output = D> + Div<Output = D>,
    A: Fn(i64) -> T,
    B: Fn(u32) -> T,
    W: Fn(usize) -> D,
    C: Fn(D) -> usize,
    F: Fn(D) -> usize,
    N: Fn(D) -> T,
>(math: AudioMath<T, A, B, W, C, F, N>, samples: Seq<T>, out: Seq<T>)
    requires
        is_signal(math, samples, TARGET_SAMPLE_RATE, 1, out),
    ensures
        out == samples,
{
}

/// All numbers of `x` are in the range `ok`.
pub open spec fn all_ok<T>(ok: spec_fn(T) -> bool, x: Seq<T>) -> bool {
    forall|i: int| 0 <= i < x.len() ==> ok(#[trigger] x[i])
}

/// Averaging the channels of a frame and interpolating between neighbours give numbers in the range
/// `ok` where they are given such, and so does converting a sample between -1 and 1.
pub open spec fn keeps_range<
    T: Add<Output = T> + Sub<Output = T> + Mul<Output = T> + Div<Output = T>,
    D: Sub<Output = D> + Mul<Output = D> + Div<Output = D>,
    A: Fn(i64) -> T,
    B: Fn(u32) -> T,
    W: Fn(usize) -> D,
    C: Fn(D) -> usize,
    F: Fn(D) -> usize,
    N: Fn(D) -> T,
>(math: AudioMath<T, A, B, W, C, F, N>, ok: spec_fn(T) -> bool) -> bool {
    &&& forall|s: Sample, x: T| #[trigger]
        is_converted(math.from_int, math.from_bits, s, x) && crate::audio::wav::in_range(s)
            ==> ok(x)
    &&& forall|channels: u16, inv: T, frame: Seq<T>, m: T|
        #![trigger is_inverse(math.one, math.from_int, channels, inv), is_mean(
            math.zero,
            inv,
            frame,
            m,
        )]
        is_inverse(math.one, math.from_int, channels, inv) && frame.len() == channels && all_ok(
            ok,
            frame,
        ) && is_mean(math.zero, inv, frame, m) ==> ok(m)
    &&& forall|ratio: D, i: usize, at: (usize, T), a: T, b: T, r: T|
        #![trigger is_position(math.widen, math.floor, math.narrow, ratio, i, at), is_blend(
            math.one,
            a,
            b,
            at.1,
            r,
        )]
        is_position(math.widen, math.floor, math.narrow, ratio, i, at) && is_blend(
            math.one,
            a,
            b,
            at.1,
            r,
        ) && ok(a) && ok(b) ==> ok(r)
}

/// A signal of numbers in a range stays in it, where averaging and interpolating keep the range.
pub proof fn law_signal_keeps_range<
    T: Add<Output = T> + Sub<Output = T> + Mul<Output = T> + Div<Output = T>,
    D: Sub<Output = D> + Mul<Output = D> + Div<Output = D>,
    A: Fn(i64) -> T,
    B: Fn(u32) -> T,
    W: Fn(usize) -> D,
    C: Fn(D) -> usize,
    F: Fn(D) -> usize,
    N: Fn(D) -> T,
>(
    math: AudioMath<T, A, B, W, C, F, N>,
    ok: spec_fn(T) -> bool,
    samples: Seq<T>,
    rate: u32,
    channels: u16,
    out: Seq<T>,
)
    requires
        keeps_range(math, ok),
        all_ok(ok, samples),
        is_signal(math, samples, rate, channels, out),
    ensures
        all_ok(ok, out),
{
    let mono = choose|mono: Seq<T>| #[trigger]
        is_downmix(math.zero, math.one, math.from_int, samples, channels, mono) && is_resampled(
            math,
            mono,
            rate,
            out,
        );
    if channels > 1 {
        let inv = choose|inv: T| #[trigger]
            is_inverse(math.one, math.from_int, channels, inv) && are_means(
                math.zero,
                inv,
                samples,
                channels,
                mono,
            );
        assert forall|f: int| 0 <= f < mono.len() implies ok(#[trigger] mono[f]) by {
            let w = channels as int;
            let len = samples.len() as int;
            assert(0 <= f * w && f * w + w <= len) by (nonlinear_arith)
                requires
                    0 <= f < len / w,
                    w > 1,
            ;
            let frame = samples.subrange(f * channels, f * channels + channels);
            assert forall|i: int| 0 <= i < frame.len() implies ok(#[trigger] frame[i]) by {
                assert(frame[i] == samples[f * channels + i]);
            }
            assert(all_ok(ok, frame));
            assert(is_mean(math.zero, inv, frame, mono[f]));
        }
    }
    assert(all_ok(ok, mono));
    if !(rate == TARGET_SAMPLE_RATE || mono.len() == 0) {
        let ratio = choose|ratio: D| #[trigger]
            are_resampled_values(math, ratio, mono, out) && is_ratio(math.widen, rate, ratio);
        assert forall|i: int| 0 <= i < out.len() implies ok(#[trigger] out[i]) by {
            assert(is_resampled_value(
                math.one,
                math.widen,
                math.floor,
                math.narrow,
                ratio,
                mono,
                i,
                out[i],
            ));
            let at = choose|at: (usize, T)| #[trigger]
                is_position(math.widen, math.floor, math.narrow, ratio, i as usize, at)
                    && is_value_at(math.one, mono, at, out[i]);
            if at.0 < mono.len() - 1 {
                assert(ok(mono[at.0 as int]) && ok(mono[at.0 + 1]));
                assert(is_blend(math.one, mono[at.0 as int], mono[at.0 + 1], at.1, out[i]));
            } else {
                assert(ok(mono[mono.len() - 1]));
            }
        }
    }
}

/// Audio that is loaded from a WAV file lies in the range of its samples, from -1 to 1, where
/// averaging and interpolating keep that range.
pub proof fn law_loaded_wav_is_in_range<
    T: Add<Output = T> + Sub<Output = T> + Mul<Output = T> + Div<Output = T>,
    D: Sub<Output = D> + Mul<Output = D> + Div<Output = D>,
    A: Fn(i64) -> T,
    B: Fn(u32) -> T,
    W: Fn(usize) -> D,
    C: Fn(D) -> usize,
    F: Fn(D) -> usize,
    N: Fn(D) -> T,
>(
    math: AudioMath<T, A, B, W, C, F, N>,
    ok: spec_fn(T) -> bool,
    b: Seq<u8>,
    x: Seq<T>,
    out: Seq<T>,
)
    requires
        keeps_range(math, ok),
        crate::audio::wav::wav_of(b) is Ok,
        are_converted(math.from_int, math.from_bits, (crate::audio::wav::wav_of(b)->Ok_0).1, x),
        is_signal(
            math,
            x,
            (crate::audio::wav::wav_of(b)->Ok_0).0.sample_rate,
            (crate::audio::wav::wav_of(b)->Ok_0).0.num_channels,
            out,
        ),
    ensures
        all_ok(ok, out),
{
    let (f, s) = crate::audio::wav::wav_of(b)->Ok_0;
    crate::audio::laws::law_wav_is_in_range(b);
    assert forall|i: int| 0 <= i < x.len() implies ok(#[trigger] x[i]) by {
        assert(crate::audio::wav::in_range(s[i]));
        assert(is_converted(math.from_int, math.from_bits, s[i], x[i]));
    }
    law_signal_keeps_range(math, ok, x, f.sample_rate, f.num_channels, out);
}

} // verus!
