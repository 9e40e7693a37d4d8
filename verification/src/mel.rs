//! Log-mel spectrogram of 16 kHz audio: framing, windowing, the mel filterbank.
//!
//! The transform and the functions of single numbers (maximum, logarithm, cosine) are the
//! caller's; the contracts say which values they are applied to, and where their results go.

pub mod laws;

use core::ops::{Add, Div, Mul, Sub};
use vstd::prelude::*;

verus! {

/// Audio sample rate assumed by Whisper (16 kHz).
pub const WHISPER_SAMPLE_RATE: usize = 16000;

/// FFT window size used for the mel spectrogram (400 samples = 25 ms at 16 kHz).
pub const WHISPER_N_FFT: usize = 400;

/// Hop length between successive frames (160 samples = 10 ms at 16 kHz).
pub const WHISPER_HOP_LENGTH: usize = 160;

/// Number of mel filterbank channels.
pub const WHISPER_N_MELS: usize = 80;

/// Maximum audio length processed in one pass (30 seconds).
pub const WHISPER_CHUNK_LENGTH: usize = 30;

/// Length of a windowed frame, padded to a power of two.
pub const PADDED_FRAME: usize = 512;

/// Number of frequency bins of a frame.
pub const N_BINS: usize = 201;

/// Maximum number of frames (30 seconds at 10 ms).
pub const MAX_FRAMES: usize = 3000;

/// The number of frames for `n` samples: one per hop that has a sample, one more as a margin for
/// the window, and at most those of 30 seconds.
pub open spec fn frames_for(n: nat) -> nat {
    let hops = (n + 159) / 160;
    if hops + 1 <= 3000 {
        hops + 1
    } else {
        3000
    }
}

/// Returns the number of mel filterbank channels (`WHISPER_N_MELS = 80`).
pub fn n_mels() -> (n: usize)
    ensures
        n == 80,
{
    WHISPER_N_MELS
}

/// Compute the number of mel spectrogram frames for a given number of audio samples.
///
/// The result is clamped to at most 3000 frames (= 30 s at 10 ms hop length).
pub fn n_frames_for_samples(n_samples: usize) -> (n: usize)
    ensures
        n == frames_for(n_samples as nat),
{
    let full: usize = n_samples / WHISPER_HOP_LENGTH;
    let hops: usize = if n_samples % WHISPER_HOP_LENGTH == 0 {
        full
    } else {
        full + 1
    };
    if hops < MAX_FRAMES {
        hops + 1
    } else {
        MAX_FRAMES
    }
}

/// Returns the audio context length in encoder frames (1500 = 30 s at 20 ms stride).
pub fn n_audio_ctx() -> (n: usize)
    ensures
        n == 1500,
{
    1500
}

/// The sample at `i`, `zero` behind the end.
pub open spec fn sample_at<T>(audio: Seq<T>, i: int, zero: T) -> T {
    if i < audio.len() {
        audio[i]
    } else {
        zero
    }
}

/// `w` is frame `f` of the audio under the window, padded with zeros.
pub open spec fn windowed<T: Mul<Output = T>>(
    audio: Seq<T>,
    window: Seq<T>,
    zero: T,
    f: int,
    w: Seq<T>,
) -> bool {
    &&& w.len() == 512
    &&& forall|i: int|
        0 <= i < 400 ==> crate::num::is_product(
            sample_at(audio, 160 * f + i, zero),
            window[i],
            #[trigger] w[i],
        )
    &&& forall|i: int| 400 <= i < 512 ==> #[trigger] w[i] == zero
}

/// Frame `frame` of the audio under the window, padded with zeros.
pub fn window_frame<T: Copy + Mul<Output = T>>(
    audio: &[T],
    window: &[T],
    zero: T,
    frame: usize,
) -> (w: Vec<T>)
    requires
        frame < MAX_FRAMES,
        window@.len() == WHISPER_N_FFT,
        crate::num::total_mul::<T>(),
    ensures
        windowed(audio@, window@, zero, frame as int, w@),
{
    let start: usize = frame * WHISPER_HOP_LENGTH;
    let mut w: Vec<T> = Vec::with_capacity(PADDED_FRAME);
    let mut i: usize = 0;
    while i < WHISPER_N_FFT
        invariant
            i <= WHISPER_N_FFT,
            start == 160 * frame,
            frame < MAX_FRAMES,
            window@.len() == WHISPER_N_FFT,
            crate::num::total_mul::<T>(),
            w@.len() == i,
            forall|j: int|
                0 <= j < i ==> crate::num::is_product(
                    sample_at(audio@, 160 * frame + j, zero),
                    window@[j],
                    #[trigger] w@[j],
                ),
        decreases WHISPER_N_FFT - i,
    {
        let s: T = if start + i < audio.len() {
            audio[start + i]
        } else {
            zero
        };
        w.push(s * window[i]);
        i = i + 1;
    }
    let ghost front = w@;
    while i < PADDED_FRAME
        invariant
            400 <= i <= PADDED_FRAME,
            w@.len() == i,
            front.len() == 400,
            forall|j: int| 0 <= j < 400 ==> #[trigger] w@[j] == front[j],
            forall|j: int| 400 <= j < i ==> #[trigger] w@[j] == zero,
        decreases PADDED_FRAME - i,
    {
        w.push(zero);
        i = i + 1;
    }
    w
}

/// `p` is the power of the complex number `c`: the sum of the squares of its parts.
pub open spec fn is_power<T: Add<Output = T> + Mul<Output = T>>(c: (T, T), p: T) -> bool {
    exists|re: T, im: T| #[trigger]
        crate::num::is_product(c.0, c.0, re) && #[trigger] crate::num::is_product(c.1, c.1, im)
            && crate::num::is_sum(re, im, p)
}

/// `p` holds the powers of the first 201 bins of `spectrum`.
pub open spec fn are_powers<T: Add<Output = T> + Mul<Output = T>>(
    spectrum: Seq<(T, T)>,
    p: Seq<T>,
) -> bool {
    &&& p.len() == 201
    &&& forall|b: int| 0 <= b < 201 ==> is_power(spectrum[b], #[trigger] p[b])
}

/// The powers of the first 201 bins of `spectrum`.
pub fn powers<T: Copy + Add<Output = T> + Mul<Output = T>>(spectrum: &Vec<(T, T)>) -> (p: Vec<T>)
    requires
        spectrum@.len() >= N_BINS,
        crate::num::total_add::<T>(),
        crate::num::total_mul::<T>(),
    ensures
        are_powers(spectrum@, p@),
{
    let mut p: Vec<T> = Vec::with_capacity(N_BINS);
    let mut b: usize = 0;
    while b < N_BINS
        invariant
            b <= N_BINS,
            spectrum@.len() >= N_BINS,
            crate::num::total_add::<T>(),
            crate::num::total_mul::<T>(),
            p@.len() == b,
            forall|j: int| 0 <= j < b ==> is_power(spectrum@[j], #[trigger] p@[j]),
        decreases N_BINS - b,
    {
        let c: (T, T) = spectrum[b];
        let re: T = c.0 * c.0;
        let im: T = c.1 * c.1;
        let sum: T = re + im;
        assert(crate::num::is_product(c.0, c.0, re) && crate::num::is_product(c.1, c.1, im));
        p.push(sum);
        b = b + 1;
    }
    p
}

/// Row `m` of the filterbank.
pub open spec fn filter_row<T>(filters: Seq<T>, m: int) -> Seq<T> {
    filters.subrange(201 * m, 201 * m + 201)
}

/// `e` is the filterbank's output, channel by channel: cell `k` belongs to channel `k / n` and
/// frame `k % n`, where `n` is the number of frames, and is the dot product of the channel's
/// filter with the frame's powers.
pub open spec fn are_energies<T: Add<Output = T> + Mul<Output = T>>(
    filters: Seq<T>,
    frames: Seq<Vec<T>>,
    zero: T,
    e: Seq<T>,
) -> bool {
    &&& e.len() == 80 * frames.len()
    &&& forall|k: int|
        0 <= k < e.len() ==> crate::num::dot_of(
            zero,
            filter_row(filters, k / frames.len() as int),
            frames[k % frames.len() as int]@,
            #[trigger] e[k],
        )
}

/// The filterbank's output for the powers of all frames.
pub fn energies<T: Copy + Add<Output = T> + Mul<Output = T>>(
    filters: &[T],
    frames: &Vec<Vec<T>>,
    zero: T,
) -> (e: Vec<T>)
    requires
        filters@.len() == WHISPER_N_MELS * N_BINS,
        1 <= frames@.len() <= MAX_FRAMES,
        forall|f: int| 0 <= f < frames@.len() ==> (#[trigger] frames@[f])@.len() == N_BINS,
        crate::num::total_add::<T>(),
        crate::num::total_mul::<T>(),
    ensures
        are_energies(filters@, frames@, zero, e@),
{
    let n: usize = frames.len();
    let total: usize = WHISPER_N_MELS * n;
    let mut e: Vec<T> = Vec::with_capacity(total);
    let mut k: usize = 0;
    while k < total
        invariant
            k <= total,
            n == frames@.len(),
            1 <= n <= MAX_FRAMES,
            total == 80 * n,
            filters@.len() == WHISPER_N_MELS * N_BINS,
            forall|f: int| 0 <= f < frames@.len() ==> (#[trigger] frames@[f])@.len() == N_BINS,
            crate::num::total_add::<T>(),
            crate::num::total_mul::<T>(),
            e@.len() == k,
            forall|j: int|
                0 <= j < k ==> crate::num::dot_of(
                    zero,
                    filter_row(filters@, j / n as int),
                    frames@[j % n as int]@,
                    #[trigger] e@[j],
                ),
        decreases total - k,
    {
        let m: usize = k / n;
        let f: usize = k % n;
        proof {
            assert(m < 80) by (nonlinear_arith)
                requires
                    k < 80 * n,
                    n >= 1,
                    m == k / n,
            ;
        }
        let row: &[T] = &filters[m * N_BINS..m * N_BINS + N_BINS];
        e.push(crate::num::dot(row, frames[f].as_slice(), zero));
        k = k + 1;
    }
    e
}

/// How the value `v` of the Hann window at place `i` comes about: the turn `a` that `i` has of the
/// window, its cosine `c`, and half of the difference `d` to one. `n` holds the numbers two, pi,
/// one and one half, then those of the place and of the window's length.
pub open spec fn window_by<
    T: Sub<Output = T> + Mul<Output = T> + Div<Output = T>,
    B: Fn(u32) -> T,
    N: Fn(usize) -> T,
    C: Fn(T) -> T,
>(
    from_bits: B,
    count: N,
    cos: C,
    i: usize,
    n: (T, T, T, T, T, T),
    full: T,
    p: T,
    a: T,
    c: T,
    d: T,
    v: T,
) -> bool {
    &&& call_ensures(from_bits, (crate::bits::TWO_BITS,), n.0)
    &&& call_ensures(from_bits, (crate::bits::PI_BITS,), n.1)
    &&& call_ensures(from_bits, (crate::bits::ONE_BITS,), n.2)
    &&& call_ensures(from_bits, (crate::bits::HALF_BITS,), n.3)
    &&& call_ensures(count, (i,), n.4)
    &&& call_ensures(count, (WHISPER_N_FFT,), n.5)
    &&& crate::num::is_product(n.0, n.1, full)
    &&& crate::num::is_product(full, n.4, p)
    &&& crate::num::is_quotient(p, n.5, a)
    &&& call_ensures(cos, (a,), c)
    &&& crate::num::is_difference(n.2, c, d)
    &&& crate::num::is_product(n.3, d, v)
}

/// `v` is the value of the Hann window at place `i`: half of one minus the cosine of the turn that
/// the place has of the window.
pub open spec fn is_window_value<
    T: Sub<Output = T> + Mul<Output = T> + Div<Output = T>,
    B: Fn(u32) -> T,
    N: Fn(usize) -> T,
    C: Fn(T) -> T,
>(from_bits: B, count: N, cos: C, i: usize, v: T) -> bool {
    exists|n: (T, T, T, T, T, T), full: T, p: T, a: T, c: T, d: T| #[trigger]
        window_by(from_bits, count, cos, i, n, full, p, a, c, d, v)
}

/// `w` is the Hann window.
pub open spec fn is_hann_window<
    T: Sub<Output = T> + Mul<Output = T> + Div<Output = T>,
    B: Fn(u32) -> T,
    N: Fn(usize) -> T,
    C: Fn(T) -> T,
>(from_bits: B, count: N, cos: C, w: Seq<T>) -> bool {
    &&& w.len() == 400
    &&& forall|i: int|
        0 <= i < 400 ==> is_window_value(from_bits, count, cos, i as usize, #[trigger] w[i])
}

/// The Hann window of `WHISPER_N_FFT` places.
pub fn hann_window<
    T: Copy + Sub<Output = T> + Mul<Output = T> + Div<Output = T>,
    B: Fn(u32) -> T,
    N: Fn(usize) -> T,
    C: Fn(T) -> T,
>(from_bits: &B, count: &N, cos: &C) -> (w: Vec<T>)
    requires
        forall|b: u32| #[trigger] call_requires(*from_bits, (b,)),
        forall|n: usize| #[trigger] call_requires(*count, (n,)),
        forall|a: T| #[trigger] call_requires(*cos, (a,)),
        crate::num::total_sub::<T>(),
        crate::num::total_mul::<T>(),
        crate::num::total_div::<T>(),
    ensures
        is_hann_window(*from_bits, *count, *cos, w@),
{
    let two: T = from_bits(crate::bits::TWO_BITS);
    let pi: T = from_bits(crate::bits::PI_BITS);
    let one: T = from_bits(crate::bits::ONE_BITS);
    let half: T = from_bits(crate::bits::HALF_BITS);
    let len: T = count(WHISPER_N_FFT);
    let full: T = two * pi;
    let mut w: Vec<T> = Vec::with_capacity(WHISPER_N_FFT);
    let mut i: usize = 0;
    while i < WHISPER_N_FFT
        invariant
            i <= WHISPER_N_FFT,
            forall|n: usize| #[trigger] call_requires(*count, (n,)),
            forall|a: T| #[trigger] call_requires(*cos, (a,)),
            crate::num::total_sub::<T>(),
            crate::num::total_mul::<T>(),
            crate::num::total_div::<T>(),
            call_ensures(*from_bits, (crate::bits::TWO_BITS,), two),
            call_ensures(*from_bits, (crate::bits::PI_BITS,), pi),
            call_ensures(*from_bits, (crate::bits::ONE_BITS,), one),
            call_ensures(*from_bits, (crate::bits::HALF_BITS,), half),
            call_ensures(*count, (WHISPER_N_FFT,), len),
            crate::num::is_product(two, pi, full),
            w@.len() == i,
            forall|j: int|
                0 <= j < i ==> is_window_value(
                    *from_bits,
                    *count,
                    *cos,
                    j as usize,
                    #[trigger] w@[j],
                ),
        decreases WHISPER_N_FFT - i,
    {
        let k: T = count(i);
        let p: T = full * k;
        let a: T = p / len;
        let c: T = cos(a);
        let d: T = one - c;
        let v: T = half * d;
        assert(window_by(
            *from_bits,
            *count,
            *cos,
            i,
            (two, pi, one, half, k, len),
            full,
            p,
            a,
            c,
            d,
            v,
        ));
        w.push(v);
        i = i + 1;
    }
    w
}

/// Bit pattern of the least energy that counts, 1e-10.
pub const LEAST_ENERGY_BITS: u32 = 0x2EDB_E6FF;

/// The functions of numbers that the spectrogram rests on, its constants and its window.
pub struct MelMath<T, B, N, C, F, M, L> {
    /// The additive zero.
    pub zero: T,
    /// The number below all others, where the search for the maximum begins.
    pub lowest: T,
    /// The least energy that counts, 1e-10.
    pub least: T,
    /// How far a level may lie below the highest one, 8.
    pub range: T,
    /// What is added to a level, and what the sum is divided by, 4.
    pub shift: T,
    /// The Hann window.
    pub window: Vec<T>,
    /// The number of a bit pattern.
    pub from_bits: B,
    /// The number of a count.
    pub count: N,
    /// The cosine.
    pub cos: C,
    /// Forward transform of a real frame; each complex number as real and imaginary part.
    pub rfft: F,
    /// The larger of two numbers.
    pub larger: M,
    /// The decimal logarithm.
    pub log10: L,
}

impl<
    T: Sub<Output = T> + Mul<Output = T> + Div<Output = T>,
    B: Fn(u32) -> T,
    N: Fn(usize) -> T,
    C: Fn(T) -> T,
    F: Fn(Vec<T>) -> Vec<(T, T)>,
    M: Fn(T, T) -> T,
    L: Fn(T) -> T,
> MelMath<T, B, N, C, F, M, L> {
    /// Every function accepts its arguments, the transform gives all bins, and constants and
    /// window are what they are for.
    pub open spec fn ready(&self) -> bool {
        &&& forall|w: Vec<T>| w@.len() == 512 ==> #[trigger] call_requires(self.rfft, (w,))
        &&& forall|w: Vec<T>, s: Vec<(T, T)>| #[trigger]
            call_ensures(self.rfft, (w,), s) ==> s@.len() >= N_BINS
        &&& forall|a: T, b: T| #[trigger] call_requires(self.larger, (a, b))
        &&& forall|a: T| #[trigger] call_requires(self.log10, (a,))
        &&& call_ensures(self.from_bits, (crate::bits::ZERO_BITS,), self.zero)
        &&& call_ensures(self.from_bits, (crate::bits::NEG_INFINITY,), self.lowest)
        &&& call_ensures(self.from_bits, (LEAST_ENERGY_BITS,), self.least)
        &&& call_ensures(self.from_bits, (crate::bits::EIGHT_BITS,), self.range)
        &&& call_ensures(self.from_bits, (crate::bits::FOUR_BITS,), self.shift)
        &&& is_hann_window(self.from_bits, self.count, self.cos, self.window@)
    }
}

impl<
    T: Copy + Sub<Output = T> + Mul<Output = T> + Div<Output = T>,
    B: Fn(u32) -> T,
    N: Fn(usize) -> T,
    C: Fn(T) -> T,
    F: Fn(Vec<T>) -> Vec<(T, T)>,
    M: Fn(T, T) -> T,
    L: Fn(T) -> T,
> MelMath<T, B, N, C, F, M, L> {
    /// Takes the functions, and computes the constants and the window from them.
    pub fn new(from_bits: B, count: N, cos: C, rfft: F, larger: M, log10: L) -> (r: Self)
        requires
            forall|b: u32| #[trigger] call_requires(from_bits, (b,)),
            forall|n: usize| #[trigger] call_requires(count, (n,)),
            forall|a: T| #[trigger] call_requires(cos, (a,)),
            forall|w: Vec<T>| w@.len() == 512 ==> #[trigger] call_requires(rfft, (w,)),
            forall|w: Vec<T>, s: Vec<(T, T)>| #[trigger]
                call_ensures(rfft, (w,), s) ==> s@.len() >= N_BINS,
            forall|a: T, b: T| #[trigger] call_requires(larger, (a, b)),
            forall|a: T| #[trigger] call_requires(log10, (a,)),
            crate::num::total_sub::<T>(),
            crate::num::total_mul::<T>(),
            crate::num::total_div::<T>(),
        ensures
            r.ready(),
            r.from_bits == from_bits,
            r.count == count,
            r.cos == cos,
            r.rfft == rfft,
            r.larger == larger,
            r.log10 == log10,
    {
        let zero: T = from_bits(crate::bits::ZERO_BITS);
        let lowest: T = from_bits(crate::bits::NEG_INFINITY);
        let least: T = from_bits(LEAST_ENERGY_BITS);
        let range: T = from_bits(crate::bits::EIGHT_BITS);
        let shift: T = from_bits(crate::bits::FOUR_BITS);
        let window: Vec<T> = hann_window(&from_bits, &count, &cos);
        MelMath {
            zero,
            lowest,
            least,
            range,
            shift,
            window,
            from_bits,
            count,
            cos,
            rfft,
            larger,
            log10,
        }
    }
}

/// `r` is the logarithm of an energy, or of the least one that counts.
pub open spec fn is_log_energy<T, M: Fn(T, T) -> T, L: Fn(T) -> T>(
    larger: M,
    log10: L,
    least: T,
    e: T,
    r: T,
) -> bool {
    exists|a: T| #[trigger] call_ensures(larger, (e, least), a) && call_ensures(log10, (a,), r)
}

/// The logarithm of an energy, or of the least one that counts.
fn log_energy<T: Copy, M: Fn(T, T) -> T, L: Fn(T) -> T>(
    larger: &M,
    log10: &L,
    least: T,
    e: T,
) -> (r: T)
    requires
        forall|a: T, b: T| #[trigger] call_requires(*larger, (a, b)),
        forall|a: T| #[trigger] call_requires(*log10, (a,)),
    ensures
        is_log_energy(*larger, *log10, least, e, r),
{
    let a: T = larger(e, least);
    log10(a)
}

/// `r` is the level of an energy below the highest logarithm `peak`: its logarithm, or the lowest
/// one that the range leaves, shifted and scaled.
pub open spec fn is_level<
    T: Add<Output = T> + Sub<Output = T> + Div<Output = T>,
    M: Fn(T, T) -> T,
    L: Fn(T) -> T,
>(larger: M, log10: L, least: T, range: T, shift: T, e: T, peak: T, r: T) -> bool {
    exists|b: T, c: T, d: T, s: T| #[trigger]
        level_by(larger, log10, least, range, shift, e, peak, b, c, d, s, r)
}

/// How a level comes about: logarithm `b`, lowest one `c`, the larger of both `d`, shifted `s`.
pub open spec fn level_by<
    T: Add<Output = T> + Sub<Output = T> + Div<Output = T>,
    M: Fn(T, T) -> T,
    L: Fn(T) -> T,
>(
    larger: M,
    log10: L,
    least: T,
    range: T,
    shift: T,
    e: T,
    peak: T,
    b: T,
    c: T,
    d: T,
    s: T,
    r: T,
) -> bool {
    &&& is_log_energy(larger, log10, least, e, b)
    &&& crate::num::is_difference(peak, range, c)
    &&& call_ensures(larger, (b, c), d)
    &&& crate::num::is_sum(d, shift, s)
    &&& crate::num::is_quotient(s, shift, r)
}

/// The level of an energy below the highest logarithm.
fn level<
    T: Copy + Add<Output = T> + Sub<Output = T> + Mul<Output = T> + Div<Output = T>,
    B: Fn(u32) -> T,
    N: Fn(usize) -> T,
    C: Fn(T) -> T,
    F: Fn(Vec<T>) -> Vec<(T, T)>,
    M: Fn(T, T) -> T,
    L: Fn(T) -> T,
>(math: &MelMath<T, B, N, C, F, M, L>, e: T, peak: T) -> (r: T)
    requires
        math.ready(),
        crate::num::total_add::<T>(),
        crate::num::total_sub::<T>(),
        crate::num::total_div::<T>(),
    ensures
        is_level(math.larger, math.log10, math.least, math.range, math.shift, e, peak, r),
{
    let b: T = log_energy(&math.larger, &math.log10, math.least, e);
    let c: T = peak - math.range;
    let d: T = (math.larger)(b, c);
    let s: T = d + math.shift;
    let r: T = s / math.shift;
    assert(level_by(
        math.larger,
        math.log10,
        math.least,
        math.range,
        math.shift,
        e,
        peak,
        b,
        c,
        d,
        s,
        r,
    ));
    r
}

/// `row` holds the powers of frame `f`.
pub open spec fn frame_powers<
    T: Add<Output = T> + Mul<Output = T>,
    F: Fn(Vec<T>) -> Vec<(T, T)>,
>(audio: Seq<T>, window: Seq<T>, zero: T, rfft: F, f: int, row: Seq<T>) -> bool {
    exists|w: Vec<T>, s: Vec<(T, T)>| #[trigger]
        call_ensures(rfft, (w,), s) && windowed(audio, window, zero, f, w@) && are_powers(s@, row)
}

/// `out` is the log-mel spectrogram of the audio: the energies of its frames, each turned into a
/// level below the common maximum.
pub open spec fn is_log_mel<
    T: Add<Output = T> + Sub<Output = T> + Mul<Output = T> + Div<Output = T>,
    B: Fn(u32) -> T,
    N: Fn(usize) -> T,
    C: Fn(T) -> T,
    F: Fn(Vec<T>) -> Vec<(T, T)>,
    M: Fn(T, T) -> T,
    L: Fn(T) -> T,
>(
    audio: Seq<T>,
    filters: Seq<T>,
    math: MelMath<T, B, N, C, F, M, L>,
    frames: Seq<Vec<T>>,
    e: Seq<T>,
    top: T,
    peak: T,
    out: Seq<T>,
) -> bool {
    &&& frames.len() == frames_for(audio.len())
    &&& forall|f: int|
        0 <= f < frames.len() ==> frame_powers(
            audio,
            math.window@,
            math.zero,
            math.rfft,
            f,
            (#[trigger] frames[f])@,
        )
    &&& are_energies(filters, frames, math.zero, e)
    &&& crate::num::is_top(math.larger, math.lowest, e, top)
    &&& is_log_energy(math.larger, math.log10, math.least, top, peak)
    &&& out.len() == e.len()
    &&& forall|k: int|
        0 <= k < out.len() ==> is_level(
            math.larger,
            math.log10,
            math.least,
            math.range,
            math.shift,
            e[k],
            peak,
            #[trigger] out[k],
        )
}

/// `out` is the log-mel spectrogram of the audio.
pub open spec fn is_spectrogram<
    T: Add<Output = T> + Sub<Output = T> + Mul<Output = T> + Div<Output = T>,
    B: Fn(u32) -> T,
    N: Fn(usize) -> T,
    C: Fn(T) -> T,
    F: Fn(Vec<T>) -> Vec<(T, T)>,
    M: Fn(T, T) -> T,
    L: Fn(T) -> T,
>(
    audio: Seq<T>,
    filters: Seq<T>,
    math: MelMath<T, B, N, C, F, M, L>,
    out: Seq<T>,
) -> bool {
    exists|frames: Seq<Vec<T>>, e: Seq<T>, top: T, peak: T| #[trigger]
        is_log_mel(audio, filters, math, frames, e, top, peak, out)
}

/// Compute the log-mel spectrogram of 16 kHz mono audio, `[n_mels, n_frames]`, channel by
/// channel. Only frames with audio are processed, at most 3000.
pub fn log_mel_spectrogram<
    T: Copy + Add<Output = T> + Sub<Output = T> + Mul<Output = T> + Div<Output = T>,
    B: Fn(u32) -> T,
    N: Fn(usize) -> T,
    C: Fn(T) -> T,
    F: Fn(Vec<T>) -> Vec<(T, T)>,
    M: Fn(T, T) -> T,
    L: Fn(T) -> T,
>(audio: &[T], mel_filters: &[T], math: &MelMath<T, B, N, C, F, M, L>) -> (out: Vec<T>)
    requires
        mel_filters@.len() == WHISPER_N_MELS * N_BINS,
        math.ready(),
        crate::num::total_add::<T>(),
        crate::num::total_sub::<T>(),
        crate::num::total_mul::<T>(),
        crate::num::total_div::<T>(),
    ensures
        out@.len() == 80 * frames_for(audio@.len()),
        is_spectrogram(audio@, mel_filters@, *math, out@),
{
    let n_frames: usize = n_frames_for_samples(audio.len());
    let mut frames: Vec<Vec<T>> = Vec::with_capacity(n_frames);
    let mut f: usize = 0;
    while f < n_frames
        invariant
            f <= n_frames <= MAX_FRAMES,
            math.ready(),
            crate::num::total_add::<T>(),
            crate::num::total_mul::<T>(),
            frames@.len() == f,
            forall|j: int|
                0 <= j < f ==> frame_powers(
                    audio@,
                    math.window@,
                    math.zero,
                    math.rfft,
                    j,
                    (#[trigger] frames@[j])@,
                ),
            forall|j: int| 0 <= j < f ==> (#[trigger] frames@[j])@.len() == N_BINS,
        decreases n_frames - f,
    {
        let w: Vec<T> = window_frame(audio, math.window.as_slice(), math.zero, f);
        let ghost given = w;
        let spectrum: Vec<(T, T)> = (math.rfft)(w);
        assert(call_ensures(math.rfft, (given,), spectrum));
        frames.push(powers(&spectrum));
        f = f + 1;
    }
    let e: Vec<T> = energies(mel_filters, &frames, math.zero);
    let top: T = crate::num::find_top(&math.larger, math.lowest, e.as_slice());
    let peak: T = log_energy(&math.larger, &math.log10, math.least, top);
    let mut out: Vec<T> = Vec::with_capacity(e.len());
    let mut k: usize = 0;
    while k < e.len()
        invariant
            k <= e@.len(),
            math.ready(),
            crate::num::total_add::<T>(),
            crate::num::total_sub::<T>(),
            crate::num::total_div::<T>(),
            out@.len() == k,
            forall|j: int|
                0 <= j < k ==> is_level(
                    math.larger,
                    math.log10,
                    math.least,
                    math.range,
                    math.shift,
                    e@[j],
                    peak,
                    #[trigger] out@[j],
                ),
        decreases e@.len() - k,
    {
        out.push(level(math, e[k], peak));
        k = k + 1;
    }
    assert(is_log_mel(audio@, mel_filters@, *math, frames@, e@, top, peak, out@));
    out
}

/// There is at least one frame and at most `MAX_FRAMES`; the hops of the frames cover all samples
/// up to that limit, no frame but the last begins behind the samples, and more samples never have
/// fewer frames.
pub proof fn law_frames_cover_audio(n: nat, m: nat)
    requires
        n <= m,
    ensures
        1 <= frames_for(n) <= MAX_FRAMES,
        frames_for(n) < MAX_FRAMES ==> n <= 160 * (frames_for(n) - 1) < n + 160,
        n > 0 ==> 160 * (frames_for(n) - 2) < n,
        frames_for(n) <= frames_for(m),
{
}

} // verus!
