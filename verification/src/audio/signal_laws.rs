//! What mixing, resampling and conversion make of samples in exact arithmetic.

use crate::audio::signal::{self, AudioMath};
use crate::audio::wav::{FmtChunk, Sample};
use crate::exact;
use core::ops::{Add, Div, Mul, Sub};
use vstd::prelude::*;

verus! {

/// `v` gives the number of an integer its value.
pub open spec fn values_integers<T, A: Fn(i64) -> T>(v: spec_fn(T) -> real, from_int: A) -> bool {
    forall|n: i64, x: T| #[trigger] call_ensures(from_int, (n,), x) ==> v(x) == (n as int) as real
}

/// A downmix has one value per whole frame, the mean of the frame's channels: their number times the
/// value is the sum of all channels. One channel is left as it is.
pub proof fn law_downmix_averages_channels<
    T: Add<Output = T> + Mul<Output = T> + Div<Output = T>,
    A: Fn(i64) -> T,
>(
    v: spec_fn(T) -> real,
    zero: T,
    one: T,
    from_int: A,
    samples: Seq<T>,
    channels: u16,
    mono: Seq<T>,
    f: int,
)
    requires
        exact::adds(v),
        exact::multiplies(v),
        exact::divides(v),
        values_integers(v, from_int),
        v(zero) == 0real,
        v(one) == 1real,
        signal::is_downmix(zero, one, from_int, samples, channels, mono),
        0 <= f < mono.len(),
    ensures
        channels <= 1 ==> mono == samples,
        channels > 1 ==> mono.len() * channels <= samples.len() < (mono.len() + 1) * channels,
        channels > 1 ==> v(mono[f]) * (channels as int) as real == exact::total(
            channels as nat,
            |c: int| v(samples[f * channels + c]),
        ),
{
    if channels > 1 {
        let inv = choose|inv: T| #[trigger]
            signal::is_inverse(one, from_int, channels, inv) && signal::are_means(
                zero,
                inv,
                samples,
                channels,
                mono,
            );
        let n = choose|n: T| #[trigger]
            call_ensures(from_int, (channels as i64,), n) && crate::num::is_quotient(one, n, inv);
        let c = channels as int;
        let frames = samples.len() as int / c;
        assert(frames * c <= samples.len() < (frames + 1) * c) by (nonlinear_arith)
            requires
                frames == samples.len() as int / c,
                c > 0,
        ;
        assert(f * c + c <= frames * c && 0 <= f * c) by (nonlinear_arith)
            requires
                0 <= f < frames,
                c > 0,
        ;
        let frame = samples.subrange(f * c, f * c + c);
        assert(signal::is_mean(zero, inv, frame, mono[f]));
        let s = choose|s: T| #[trigger]
            crate::num::sum_of(zero, frame, s) && crate::num::is_product(s, inv, mono[f]);
        exact::lemma_sum_value(v, zero, frame, s);
        let g = |k: int| v(frame[k]);
        let h = |k: int| v(samples[f * channels + k]);
        assert forall|k: int| 0 <= k < c implies #[trigger] g(k) == h(k) by {
            assert(frame[k] == samples[f * c + k]);
        }
        exact::lemma_total_same(channels as nat, g, h);
        let m = v(mono[f]);
        let sum = v(s);
        let i = v(inv);
        let number = (channels as int) as real;
        assert(v(n) == number);
        assert(number != 0real);
        assert(i == 1real / number);
        assert(m == sum * i);
        assert(m * number == sum) by (nonlinear_arith)
            requires
                number != 0real,
                i == 1real / number,
                m == sum * i,
        ;
    }
}

/// `v` and `u` carry the operators and functions of values and of positions over to those of the
/// real numbers.
pub open spec fn is_exact<
    T: Add<Output = T> + Sub<Output = T> + Mul<Output = T> + Div<Output = T>,
    D: Sub<Output = D> + Mul<Output = D> + Div<Output = D>,
    A: Fn(i64) -> T,
    B: Fn(u32) -> T,
    W: Fn(usize) -> D,
    C: Fn(D) -> usize,
    F: Fn(D) -> usize,
    N: Fn(D) -> T,
>(
    math: AudioMath<T, A, B, W, C, F, N>,
    v: spec_fn(T) -> real,
    u: spec_fn(D) -> real,
) -> bool {
    &&& exact::adds(v)
    &&& exact::subtracts(v)
    &&& exact::multiplies(v)
    &&& exact::subtracts(u)
    &&& exact::multiplies(u)
    &&& exact::divides(u)
    &&& v(math.one) == 1real
    &&& forall|n: usize, d: D| #[trigger]
        call_ensures(math.widen, (n,), d) ==> u(d) == (n as int) as real
    &&& forall|d: D, k: usize| #[trigger]
        call_ensures(math.floor, (d,), k) && u(d) >= 0real ==> (k as int) as real <= u(d) < (k + 1)
            as real
    &&& forall|d: D, k: usize| #[trigger]
        call_ensures(math.ceil, (d,), k) && u(d) >= 0real ==> ((k - 1) as real) < u(d) <= (k as int)
            as real
    &&& forall|d: D, x: T| #[trigger] call_ensures(math.narrow, (d,), x) ==> v(x) == u(d)
}

/// The value of a signal at output sample `i`, counted in samples of 16 kHz: on the straight line
/// between the two samples of the given rate around that time, and the last sample behind all.
pub open spec fn value_at<T>(v: spec_fn(T) -> real, samples: Seq<T>, rate: int, i: int) -> real {
    let k = i * rate / 16000;
    let part = (i * rate % 16000) as real / 16000real;
    if k >= samples.len() - 1 {
        v(samples[samples.len() - 1])
    } else {
        v(samples[k]) + (v(samples[k + 1]) - v(samples[k])) * part
    }
}

/// Whole and remaining part of a quotient.
proof fn lemma_parts(a: int, k: int, x: real)
    requires
        0 <= a,
        x == a as real / 16000real,
        k as real <= x < (k + 1) as real,
    ensures
        k == a / 16000,
        x - k as real == (a % 16000) as real / 16000real,
{
    assert(16000real * x == a as real);
    assert((16000 * k) as real <= a as real);
    assert((a as real) < (16000 * k + 16000) as real);
    assert(16000 * k <= a < 16000 * k + 16000);
    assert(a / 16000 == k);
    assert(a % 16000 == a - 16000 * k);
}

/// Resampling takes the signal's values at 16 kHz: output sample `i` is its value at the time of
/// sample `i`, and there are as many as the signal has time for. A signal at that rate is left as it
/// is.
pub proof fn law_resampling_reads_at_16_khz<
    T: Add<Output = T> + Sub<Output = T> + Mul<Output = T> + Div<Output = T>,
    D: Sub<Output = D> + Mul<Output = D> + Div<Output = D>,
    A: Fn(i64) -> T,
    B: Fn(u32) -> T,
    W: Fn(usize) -> D,
    C: Fn(D) -> usize,
    F: Fn(D) -> usize,
    N: Fn(D) -> T,
>(
    math: AudioMath<T, A, B, W, C, F, N>,
    v: spec_fn(T) -> real,
    u: spec_fn(D) -> real,
    samples: Seq<T>,
    rate: u32,
    out: Seq<T>,
)
    requires
        is_exact(math, v, u),
        signal::is_resampled(math, samples, rate, out),
        0 < rate,
        0 < samples.len() <= usize::MAX,
    ensures
        rate == 16000 ==> out == samples,
        rate != 16000 ==> (out.len() - 1) * rate < samples.len() * 16000 <= out.len() * rate,
        rate != 16000 ==> forall|i: int|
            0 <= i < out.len() ==> v(#[trigger] out[i]) == value_at(v, samples, rate as int, i),
{
    if rate != 16000 {
        let ratio = choose|ratio: D| #[trigger]
            signal::are_resampled_values(math, ratio, samples, out) && signal::is_ratio(
                math.widen,
                rate,
                ratio,
            );
        let (r, t) = choose|r: D, t: D| #[trigger]
            call_ensures(math.widen, (rate as usize,), r) && #[trigger] call_ensures(
                math.widen,
                (signal::TARGET_SAMPLE_RATE as usize,),
                t,
            ) && crate::num::is_quotient(r, t, ratio);
        let y = (rate as int) as real;
        assert(u(t) == 16000real);
        assert(u(r) == y);
        assert(u(ratio) == y / 16000real);
        let (l, q) = choose|l: D, q: D| #[trigger]
            call_ensures(math.widen, ((samples.len() as int) as usize,), l)
                && #[trigger] crate::num::is_quotient(l, ratio, q) && 0 <= out.len() as int
                <= usize::MAX && call_ensures(math.ceil, (q,), (out.len() as int) as usize);
        let n = samples.len() as int;
        let m = out.len() as int;
        assert(u(l) == n as real);
        let z = u(q);
        assert(y > 0real);
        assert(u(ratio) != 0real);
        assert(z == n as real / u(ratio));
        let nr = n as real;
        let ur = u(ratio);
        assert(z * y == nr * 16000real) by (nonlinear_arith)
            requires
                ur == y / 16000real,
                y > 0real,
                ur != 0real,
                z == nr / ur,
        ;
        assert(z >= 0real) by (nonlinear_arith)
            requires
                z * y == nr * 16000real,
                y > 0real,
                nr >= 0real,
        ;
        assert(((m - 1) as real) < z <= m as real);
        let low = (m - 1) as real;
        let high = m as real;
        assert(low * y < nr * 16000real <= high * y) by (nonlinear_arith)
            requires
                low < z <= high,
                z * y == nr * 16000real,
                y > 0real,
        ;
        lemma_int_product(m - 1, rate as int);
        lemma_int_product(m, rate as int);
        assert((((m - 1) * rate) as real) < (n * 16000) as real <= (m * rate) as real);
        assert forall|i: int| 0 <= i < m implies v(#[trigger] out[i]) == value_at(
            v,
            samples,
            rate as int,
            i,
        ) by {
            assert(signal::is_resampled_value(
                math.one,
                math.widen,
                math.floor,
                math.narrow,
                ratio,
                samples,
                i,
                out[i],
            ));
            let at = choose|at: (usize, T)| #[trigger]
                signal::is_position(math.widen, math.floor, math.narrow, ratio, i as usize, at)
                    && signal::is_value_at(math.one, samples, at, out[i]);
            let (k, p, w, d) = choose|k: D, p: D, w: D, d: D| #[trigger]
                signal::position_by(
                    math.widen,
                    math.floor,
                    math.narrow,
                    ratio,
                    i as usize,
                    at,
                    k,
                    p,
                    w,
                    d,
                );
            let ir = i as real;
            assert(u(k) == ir);
            let x = u(p);
            assert(x == ir * ur);
            lemma_int_product(i, rate as int);
            assert(ir * ur == (ir * y) / 16000real) by (nonlinear_arith)
                requires
                    ur == y / 16000real,
            ;
            assert(x == (i * rate) as real / 16000real);
            assert(0 <= i * rate) by (nonlinear_arith)
                requires
                    0 <= i,
                    0 <= rate,
            ;
            lemma_parts(i * rate, at.0 as int, x);
            assert(v(at.1) == (i * rate % 16000) as real / 16000real);
            if at.0 < samples.len() - 1 {
                let a = samples[at.0 as int];
                let b = samples[at.0 + 1];
                let (d2, x2, y2) = choose|d2: T, x2: T, y2: T| #[trigger]
                    crate::num::is_product(a, d2, x2) && #[trigger] crate::num::is_product(
                        b,
                        at.1,
                        y2,
                    ) && crate::num::is_difference(math.one, at.1, d2) && crate::num::is_sum(
                        x2,
                        y2,
                        out[i],
                    );
                let fa = v(a);
                let fb = v(b);
                let part = v(at.1);
                assert(fa * (1real - part) + fb * part == fa + (fb - fa) * part)
                    by (nonlinear_arith);
            }
        }
    }
}

/// The product of two integers as real numbers.
proof fn lemma_int_product(a: int, b: int)
    ensures
        (a * b) as real == a as real * b as real,
{
    assert((a * b) as real == a as real * b as real) by (nonlinear_arith);
}

/// An integer sample of 8, 16, 24 or 32 bits is worth its share of the full scale of its bits; one
/// of floating point is the number of its bit pattern.
pub proof fn law_samples_are_shares_of_full_scale<
    T: Div<Output = T>,
    A: Fn(i64) -> T,
    B: Fn(u32) -> T,
>(v: spec_fn(T) -> real, from_int: A, from_bits: B, sample: Sample, x: T)
    requires
        exact::divides(v),
        values_integers(v, from_int),
        signal::is_converted(from_int, from_bits, sample, x),
    ensures
        match sample {
            Sample::Int { value, bits } => {
                &&& bits == 8 ==> v(x) * 128real == (value as int) as real
                &&& bits == 16 ==> v(x) * 32768real == (value as int) as real
                &&& bits == 24 ==> v(x) * 8388608real == (value as int) as real
                &&& bits == 32 ==> v(x) * 2147483648real == (value as int) as real
            },
            Sample::Float { pattern } => call_ensures(from_bits, (pattern,), x),
        },
{
    if let Sample::Int { value, bits } = sample {
        let (a, s) = choose|a: T, s: T| #[trigger]
            call_ensures(from_int, (value as i64,), a) && #[trigger] call_ensures(
                from_int,
                (signal::full_scale(bits),),
                s,
            ) && crate::num::is_quotient(a, s, x);
        let full = v(s);
        let n = v(a);
        let share = v(x);
        assert(full != 0real);
        assert(share * full == n) by (nonlinear_arith)
            requires
                full != 0real,
                share == n / full,
        ;
    }
}

/// A signal is the downmix of its channels, read at 16 kHz: at that rate it is the means of the
/// frames, and a signal of one channel is resampled as it is.
pub proof fn law_signal_is_resampled_downmix<
    T: Add<Output = T> + Sub<Output = T> + Mul<Output = T> + Div<Output = T>,
    D: Sub<Output = D> + Mul<Output = D> + Div<Output = D>,
    A: Fn(i64) -> T,
    B: Fn(u32) -> T,
    W: Fn(usize) -> D,
    C: Fn(D) -> usize,
    F: Fn(D) -> usize,
    N: Fn(D) -> T,
>(
    math: AudioMath<T, A, B, W, C, F, N>,
    v: spec_fn(T) -> real,
    u: spec_fn(D) -> real,
    samples: Seq<T>,
    rate: u32,
    channels: u16,
    out: Seq<T>,
    i: int,
)
    requires
        is_exact(math, v, u),
        exact::divides(v),
        values_integers(v, math.from_int),
        v(math.zero) == 0real,
        signal::is_signal(math, samples, rate, channels, out),
        0 < rate,
        0 < channels,
        channels <= samples.len() <= usize::MAX,
        0 <= i < out.len(),
    ensures
        rate == 16000 && channels > 1 ==> v(out[i]) * (channels as int) as real == exact::total(
            channels as nat,
            |c: int| v(samples[i * channels + c]),
        ),
        rate != 16000 && channels == 1 ==> v(out[i]) == value_at(v, samples, rate as int, i),
        rate != 16000 ==> (out.len() - 1) * rate < (samples.len() as int / channels as int) * 16000
            <= out.len() * rate,
{
    let mono = choose|mono: Seq<T>| #[trigger]
        signal::is_downmix(math.zero, math.one, math.from_int, samples, channels, mono)
            && signal::is_resampled(math, mono, rate, out);
    let c = channels as int;
    let n = samples.len() as int;
    assert(1 <= n / c <= n) by (nonlinear_arith)
        requires
            0 < c <= n,
    ;
    assert(mono.len() == n / c);
    law_resampling_reads_at_16_khz(math, v, u, mono, rate, out);
    if rate == 16000 {
        law_downmix_averages_channels(
            v,
            math.zero,
            math.one,
            math.from_int,
            samples,
            channels,
            mono,
            i,
        );
    }
}

/// What is loaded from a WAV file is the signal of its own samples, at its own rate and with its own
/// channels: a mono file at 16 kHz gives every sample as its share of full scale, one with more
/// channels the means of its frames, and one of another rate the values at 16 kHz.
pub proof fn law_loaded_wav_is_its_signal<
    T: Add<Output = T> + Sub<Output = T> + Mul<Output = T> + Div<Output = T>,
    D: Sub<Output = D> + Mul<Output = D> + Div<Output = D>,
    A: Fn(i64) -> T,
    B: Fn(u32) -> T,
    W: Fn(usize) -> D,
    C: Fn(D) -> usize,
    F: Fn(D) -> usize,
    N: Fn(D) -> T,
>(
    math: AudioMath<T, A, B, W, C, F, N>,
    v: spec_fn(T) -> real,
    u: spec_fn(D) -> real,
    data: Seq<u8>,
    f: FmtChunk,
    samples: Seq<Sample>,
    out: Seq<T>,
    i: int,
)
    requires
        is_exact(math, v, u),
        exact::divides(v),
        values_integers(v, math.from_int),
        v(math.zero) == 0real,
        crate::audio::wav::wav_of(data) == Ok::<
            (FmtChunk, Seq<Sample>),
            crate::audio::wav::WavFailure,
        >((f, samples)),
        signal::is_loaded(math, data, out),
        0 < f.sample_rate,
        0 < f.num_channels,
        f.num_channels <= samples.len() <= usize::MAX,
        0 <= i < out.len(),
    ensures
        exists|x: Seq<T>|
            #![trigger x.len()]
            {
                &&& x.len() == samples.len()
                &&& forall|k: int|
                    0 <= k < x.len() ==> signal::is_converted(
                        math.from_int,
                        math.from_bits,
                        samples[k],
                        #[trigger] x[k],
                    )
                &&& f.sample_rate == 16000 && f.num_channels == 1 ==> out == x
                &&& f.sample_rate == 16000 && f.num_channels > 1 ==> v(out[i]) * (
                f.num_channels as int) as real == exact::total(
                    f.num_channels as nat,
                    |c: int| v(x[i * f.num_channels + c]),
                )
                &&& f.sample_rate != 16000 && f.num_channels == 1 ==> v(out[i]) == value_at(
                    v,
                    x,
                    f.sample_rate as int,
                    i,
                )
                &&& f.sample_rate != 16000 ==> (out.len() - 1) * f.sample_rate < (
                samples.len() as int / f.num_channels as int) * 16000 <= out.len() * f.sample_rate
            },
{
    let x = choose|x: Seq<T>| #[trigger]
        signal::are_converted(math.from_int, math.from_bits, samples, x) && signal::is_signal(
            math,
            x,
            f.sample_rate,
            f.num_channels,
            out,
        );
    law_signal_is_resampled_downmix(math, v, u, x, f.sample_rate, f.num_channels, out, i);
    assert(x.len() == samples.len());
}

} // verus!
