//! What a log-mel spectrogram shows of the audio.

use crate::exact;
use crate::mel::{self, MelMath};
use core::ops::{Add, Div, Mul, Sub};
use vstd::prelude::*;

verus! {

/// Frames follow the audio: frame `f + k` of the audio has the windowed samples that frame `f` has
/// of the audio without its first `k` hops of 160 samples.
pub proof fn law_windows_follow_audio<T: Mul<Output = T>>(
    audio: Seq<T>,
    window: Seq<T>,
    zero: T,
    k: int,
    f: int,
    w: Seq<T>,
)
    requires
        0 <= k,
        0 <= f,
        160 * k <= audio.len(),
    ensures
        mel::windowed(audio, window, zero, f + k, w) <==> mel::windowed(
            audio.skip(160 * k),
            window,
            zero,
            f,
            w,
        ),
{
    let later = audio.skip(160 * k);
    assert forall|i: int| 0 <= i < 400 implies #[trigger] mel::sample_at(
        audio,
        160 * (f + k) + i,
        zero,
    ) == mel::sample_at(later, 160 * f + i, zero) by {}
    if mel::windowed(audio, window, zero, f + k, w) {
        assert forall|i: int| 0 <= i < 400 implies crate::num::is_product(
            mel::sample_at(later, 160 * f + i, zero),
            window[i],
            #[trigger] w[i],
        ) by {
            assert(mel::sample_at(audio, 160 * (f + k) + i, zero) == mel::sample_at(
                later,
                160 * f + i,
                zero,
            ));
        }
    }
    if mel::windowed(later, window, zero, f, w) {
        assert forall|i: int| 0 <= i < 400 implies crate::num::is_product(
            mel::sample_at(audio, 160 * (f + k) + i, zero),
            window[i],
            #[trigger] w[i],
        ) by {
            assert(mel::sample_at(audio, 160 * (f + k) + i, zero) == mel::sample_at(
                later,
                160 * f + i,
                zero,
            ));
        }
    }
}

/// Spectra follow the audio: frame `f + k` of the audio has the powers that frame `f` has of the
/// audio without its first `k` hops of 160 samples.
pub proof fn law_powers_follow_audio<
    T: Add<Output = T> + Mul<Output = T>,
    F: Fn(Vec<T>) -> Vec<(T, T)>,
>(audio: Seq<T>, window: Seq<T>, zero: T, rfft: F, k: int, f: int, row: Seq<T>)
    requires
        0 <= k,
        0 <= f,
        160 * k <= audio.len(),
    ensures
        mel::frame_powers(audio, window, zero, rfft, f + k, row) <==> mel::frame_powers(
            audio.skip(160 * k),
            window,
            zero,
            rfft,
            f,
            row,
        ),
{
    let later = audio.skip(160 * k);
    if mel::frame_powers(audio, window, zero, rfft, f + k, row) {
        let (w, s) = choose|w: Vec<T>, s: Vec<(T, T)>| #[trigger]
            call_ensures(rfft, (w,), s) && mel::windowed(audio, window, zero, f + k, w@)
                && mel::are_powers(s@, row);
        law_windows_follow_audio(audio, window, zero, k, f, w@);
        assert(call_ensures(rfft, (w,), s));
    }
    if mel::frame_powers(later, window, zero, rfft, f, row) {
        let (w, s) = choose|w: Vec<T>, s: Vec<(T, T)>| #[trigger]
            call_ensures(rfft, (w,), s) && mel::windowed(later, window, zero, f, w@)
                && mel::are_powers(s@, row);
        law_windows_follow_audio(audio, window, zero, k, f, w@);
        assert(call_ensures(rfft, (w,), s));
    }
}

/// The functions of numbers as functions of real numbers.
pub struct RealMath {
    /// The cosine.
    pub cos: spec_fn(real) -> real,
    /// The decimal logarithm.
    pub log10: spec_fn(real) -> real,
    /// Half the circumference of the unit circle.
    pub pi: real,
    /// The least energy that counts.
    pub least: real,
}

/// The larger of two real numbers.
pub open spec fn larger_of(a: real, b: real) -> real {
    if a >= b {
        a
    } else {
        b
    }
}

/// `v` carries the operators and functions over to those of the real numbers, and gives the bit
/// patterns of zero, one half, one, two, four and eight these numbers.
pub open spec fn is_exact<
    T: Add<Output = T> + Sub<Output = T> + Mul<Output = T> + Div<Output = T>,
    B: Fn(u32) -> T,
    N: Fn(usize) -> T,
    C: Fn(T) -> T,
    F: Fn(Vec<T>) -> Vec<(T, T)>,
    M: Fn(T, T) -> T,
    L: Fn(T) -> T,
>(math: MelMath<T, B, N, C, F, M, L>, v: spec_fn(T) -> real, real_math: RealMath) -> bool {
    &&& exact::adds(v)
    &&& exact::subtracts(v)
    &&& exact::multiplies(v)
    &&& exact::divides(v)
    &&& forall|x: T| #[trigger] call_ensures(math.from_bits, (0u32,), x) ==> v(x) == 0real
    &&& forall|x: T| #[trigger]
        call_ensures(math.from_bits, (0x3F00_0000u32,), x) ==> v(x) == 1real / 2real
    &&& forall|x: T| #[trigger] call_ensures(math.from_bits, (0x3F80_0000u32,), x) ==> v(x) == 1real
    &&& forall|x: T| #[trigger] call_ensures(math.from_bits, (0x4000_0000u32,), x) ==> v(x) == 2real
    &&& forall|x: T| #[trigger] call_ensures(math.from_bits, (0x4080_0000u32,), x) ==> v(x) == 4real
    &&& forall|x: T| #[trigger] call_ensures(math.from_bits, (0x4100_0000u32,), x) ==> v(x) == 8real
    &&& forall|x: T| #[trigger]
        call_ensures(math.from_bits, (0x4049_0FDBu32,), x) ==> v(x) == real_math.pi
    &&& forall|x: T| #[trigger]
        call_ensures(math.from_bits, (0x2EDB_E6FFu32,), x) ==> v(x) == real_math.least
    &&& forall|n: usize, x: T| #[trigger]
        call_ensures(math.count, (n,), x) ==> v(x) == (n as int) as real
    &&& forall|a: T, x: T| #[trigger]
        call_ensures(math.cos, (a,), x) ==> v(x) == (real_math.cos)(v(a))
    &&& forall|a: T, x: T| #[trigger]
        call_ensures(math.log10, (a,), x) ==> v(x) == (real_math.log10)(v(a))
    &&& forall|a: T, b: T, x: T| #[trigger]
        call_ensures(math.larger, (a, b), x) ==> v(x) == larger_of(v(a), v(b))
}

/// The Hann window at place `i`.
pub open spec fn hann(real_math: RealMath, i: int) -> real {
    (1real - (real_math.cos)(2real * real_math.pi * (i as real) / 400real)) / 2real
}

/// `x` is the energy of channel `m` in frame `f`: the powers of the spectrum of the 400 samples
/// from `160 * f` on, under the Hann window and padded with zeros to 512, weighted by the channel's
/// filter.
pub open spec fn is_energy<T, F: Fn(Vec<T>) -> Vec<(T, T)>>(
    v: spec_fn(T) -> real,
    real_math: RealMath,
    rfft: F,
    audio: Seq<T>,
    filters: Seq<T>,
    m: int,
    f: int,
    x: real,
) -> bool {
    exists|w: Vec<T>, s: Vec<(T, T)>| #[trigger]
        call_ensures(rfft, (w,), s) && w@.len() == 512 && (forall|i: int|
            0 <= i < 512 ==> v(#[trigger] w@[i]) == if i < 400 && 160 * f + i < audio.len() {
                v(audio[160 * f + i]) * hann(real_math, i)
            } else {
                0real
            }) && x == exact::total(
            201,
            |b: int|
                v(filters[201 * m + b]) * (v(s@[b].0) * v(s@[b].0) + v(s@[b].1) * v(s@[b].1)),
        )
}

/// `out` holds, channel by channel, the levels of energies `en` whose greatest is `top`: one plus a
/// quarter of the logarithm of the energy, or of the least one that counts, but no less than two
/// below the level of the greatest energy.
pub open spec fn are_levels<T>(
    v: spec_fn(T) -> real,
    real_math: RealMath,
    en: Seq<real>,
    top: real,
    out: Seq<T>,
) -> bool {
    let peak = (real_math.log10)(larger_of(top, real_math.least));
    &&& out.len() == en.len()
    &&& forall|k: int| 0 <= k < en.len() ==> #[trigger] en[k] <= top
    &&& exists|k: int| 0 <= k < en.len() && #[trigger] en[k] == top
    &&& forall|k: int|
        0 <= k < out.len() ==> v(#[trigger] out[k]) == larger_of(
            (real_math.log10)(larger_of(en[k], real_math.least)) / 4real + 1real,
            (peak / 4real + 1real) - 2real,
        )
}

/// The value of the window.
proof fn lemma_hann<
    T: Add<Output = T> + Sub<Output = T> + Mul<Output = T> + Div<Output = T>,
    B: Fn(u32) -> T,
    N: Fn(usize) -> T,
    C: Fn(T) -> T,
    F: Fn(Vec<T>) -> Vec<(T, T)>,
    M: Fn(T, T) -> T,
    L: Fn(T) -> T,
>(math: MelMath<T, B, N, C, F, M, L>, v: spec_fn(T) -> real, real_math: RealMath, i: int)
    requires
        math.ready(),
        is_exact(math, v, real_math),
        0 <= i < 400,
    ensures
        v(math.window@[i]) == hann(real_math, i),
{
    let x = math.window@[i];
    assert(mel::is_window_value(math.from_bits, math.count, math.cos, i as usize, x));
    let (n, full, p, a, c, d) = choose|
        n: (T, T, T, T, T, T),
        full: T,
        p: T,
        a: T,
        c: T,
        d: T,
    | #[trigger]
        mel::window_by(math.from_bits, math.count, math.cos, i as usize, n, full, p, a, c, d, x);
    assert(v(n.5) == 400real);
    assert(v(n.4) == i as real);
    assert(v(a) == 2real * real_math.pi * (i as real) / 400real);
    let y = v(d);
    assert((1real / 2real) * y == y / 2real) by (nonlinear_arith);
}

/// The energy of a cell.
proof fn lemma_energy<
    T: Add<Output = T> + Sub<Output = T> + Mul<Output = T> + Div<Output = T>,
    B: Fn(u32) -> T,
    N: Fn(usize) -> T,
    C: Fn(T) -> T,
    F: Fn(Vec<T>) -> Vec<(T, T)>,
    M: Fn(T, T) -> T,
    L: Fn(T) -> T,
>(
    math: MelMath<T, B, N, C, F, M, L>,
    v: spec_fn(T) -> real,
    real_math: RealMath,
    audio: Seq<T>,
    filters: Seq<T>,
    m: int,
    f: int,
    row: Seq<T>,
    e: T,
)
    requires
        math.ready(),
        is_exact(math, v, real_math),
        0 <= m < 80,
        0 <= f,
        filters.len() == 80 * 201,
        mel::frame_powers(audio, math.window@, math.zero, math.rfft, f, row),
        crate::num::dot_of(math.zero, mel::filter_row(filters, m), row, e),
    ensures
        is_energy(v, real_math, math.rfft, audio, filters, m, f, v(e)),
{
    let (w, s) = choose|w: Vec<T>, s: Vec<(T, T)>| #[trigger]
        call_ensures(math.rfft, (w,), s) && mel::windowed(
            audio,
            math.window@,
            math.zero,
            f,
            w@,
        ) && mel::are_powers(s@, row);
    assert forall|i: int| 0 <= i < 512 implies v(#[trigger] w@[i]) == if i < 400 && 160 * f + i
        < audio.len() {
        v(audio[160 * f + i]) * hann(real_math, i)
    } else {
        0real
    } by {
        if i < 400 {
            lemma_hann(math, v, real_math, i);
            assert(crate::num::is_product(
                mel::sample_at(audio, 160 * f + i, math.zero),
                math.window@[i],
                w@[i],
            ));
            let h = hann(real_math, i);
            assert(0real * h == 0real) by (nonlinear_arith);
        }
    }
    let fr = mel::filter_row(filters, m);
    crate::exact::law_dot_is_sum_of_products(v, math.zero, fr, row, e);
    let g = |b: int| v(fr[b]) * v(row[b]);
    let h = |b: int|
        v(filters[201 * m + b]) * (v(s@[b].0) * v(s@[b].0) + v(s@[b].1) * v(s@[b].1));
    assert forall|b: int| 0 <= b < 201 implies #[trigger] g(b) == h(b) by {
        assert(mel::is_power(s@[b], row[b]));
        assert(fr[b] == filters[201 * m + b]);
    }
    exact::lemma_total_same(201, g, h);
}

/// The value of a running maximum.
proof fn lemma_top<T, M: Fn(T, T) -> T>(
    larger: M,
    lowest: T,
    e: Seq<T>,
    tops: Seq<T>,
    v: spec_fn(T) -> real,
    n: nat,
)
    requires
        forall|a: T, b: T, x: T| #[trigger]
            call_ensures(larger, (a, b), x) ==> v(x) == larger_of(v(a), v(b)),
        forall|k: int| 0 <= k < e.len() ==> v(lowest) <= v(#[trigger] e[k]),
        crate::num::running_tops(larger, lowest, e, tops),
        n <= e.len(),
    ensures
        forall|k: int| 0 <= k < n ==> v(#[trigger] e[k]) <= v(tops[n as int]),
        n > 0 ==> exists|k: int| 0 <= k < n && v(#[trigger] e[k]) == v(tops[n as int]),
        n == 0 ==> tops[0] == lowest,
    decreases n,
{
    if n > 0 {
        lemma_top(larger, lowest, e, tops, v, (n - 1) as nat);
        assert(call_ensures(larger, (tops[n - 1], e[n - 1]), tops[n - 1 + 1]));
        assert(v(lowest) <= v(e[n - 1]));
        if v(e[n - 1]) < v(tops[n - 1]) {
            assert(n > 1);
            let k = choose|k: int| 0 <= k < n - 1 && v(#[trigger] e[k]) == v(tops[n - 1]);
            assert(v(e[k]) == v(tops[n as int]));
        } else {
            assert(v(e[n - 1]) == v(tops[n as int]));
        }
    }
}

/// In exact arithmetic a spectrogram has one column per frame and one row per channel; column `f`
/// shows the spectrum of the 400 samples from `160 * f` on, row `m` what the filter of channel `m`
/// leaves of it, on a logarithmic scale with a floor that lies below the greatest energy.
pub proof fn law_spectrogram_shows_spectra<
    T: Add<Output = T> + Sub<Output = T> + Mul<Output = T> + Div<Output = T>,
    B: Fn(u32) -> T,
    N: Fn(usize) -> T,
    C: Fn(T) -> T,
    F: Fn(Vec<T>) -> Vec<(T, T)>,
    M: Fn(T, T) -> T,
    L: Fn(T) -> T,
>(
    audio: Seq<T>,
    filters: Seq<T>,
    math: MelMath<T, B, N, C, F, M, L>,
    out: Seq<T>,
    v: spec_fn(T) -> real,
    real_math: RealMath,
)
    requires
        mel::is_spectrogram(audio, filters, math, out),
        math.ready(),
        is_exact(math, v, real_math),
        filters.len() == 80 * 201,
        forall|m: int, f: int, x: real| #[trigger]
            is_energy(v, real_math, math.rfft, audio, filters, m, f, x) ==> v(math.lowest) <= x,
    ensures
        out.len() == 80 * mel::frames_for(audio.len()),
        exists|en: Seq<real>, top: real|
            #![trigger are_levels(v, real_math, en, top, out)]
            {
                &&& are_levels(v, real_math, en, top, out)
                &&& forall|m: int, f: int|
                    0 <= m < 80 && 0 <= f < mel::frames_for(audio.len()) ==> #[trigger] is_energy(
                        v,
                        real_math,
                        math.rfft,
                        audio,
                        filters,
                        m,
                        f,
                        en[m * mel::frames_for(audio.len()) + f],
                    )
            },
{
    let (frames, e, top, peak) = choose|frames: Seq<Vec<T>>, e: Seq<T>, top: T, peak: T| #[trigger]
        mel::is_log_mel(audio, filters, math, frames, e, top, peak, out);
    let n = frames.len() as int;
    let en = Seq::new(e.len(), |k: int| v(e[k]));
    assert forall|m: int, f: int| 0 <= m < 80 && 0 <= f < n implies #[trigger] is_energy(
        v,
        real_math,
        math.rfft,
        audio,
        filters,
        m,
        f,
        en[m * n + f],
    ) by {
        crate::rows::lemma_place_fits(m, 80, n, f);
        crate::rows::lemma_pair_of_place(m, n, f);
        let cell = m * n + f;
        assert(crate::num::dot_of(
            math.zero,
            mel::filter_row(filters, cell / n),
            frames[cell % n]@,
            e[cell],
        ));
        assert(mel::frame_powers(audio, math.window@, math.zero, math.rfft, f, frames[f]@));
        lemma_energy(math, v, real_math, audio, filters, m, f, frames[f]@, e[cell]);
    }
    assert forall|k: int| 0 <= k < e.len() implies v(math.lowest) <= v(#[trigger] e[k]) by {
        crate::rows::lemma_place_splits(k, 80, n);
        assert(is_energy(
            v,
            real_math,
            math.rfft,
            audio,
            filters,
            k / n,
            k % n,
            en[(k / n) * n + k % n],
        ));
    }
    let tops = choose|tops: Seq<T>| #[trigger]
        crate::num::running_tops(math.larger, math.lowest, e, tops) && tops.last() == top;
    lemma_top(math.larger, math.lowest, e, tops, v, e.len());
    let k = choose|k: int| 0 <= k < e.len() && v(#[trigger] e[k]) == v(tops[e.len() as int]);
    assert(en[k] == v(top));
    assert forall|k: int| 0 <= k < en.len() implies #[trigger] en[k] <= v(top) by {
        assert(v(e[k]) <= v(tops[e.len() as int]));
    }
    assert forall|k: int| 0 <= k < out.len() implies v(#[trigger] out[k]) == larger_of(
        (real_math.log10)(larger_of(en[k], real_math.least)) / 4real + 1real,
        ((real_math.log10)(larger_of(v(top), real_math.least)) / 4real + 1real) - 2real,
    ) by {
        assert(mel::is_level(
            math.larger,
            math.log10,
            math.least,
            math.range,
            math.shift,
            e[k],
            peak,
            out[k],
        ));
        let (b, c, d, s) = choose|b: T, c: T, d: T, s: T| #[trigger]
            mel::level_by(
                math.larger,
                math.log10,
                math.least,
                math.range,
                math.shift,
                e[k],
                peak,
                b,
                c,
                d,
                s,
                out[k],
            );
        assert(v(math.shift) == 4real && v(math.range) == 8real);
        assert(v(b) == (real_math.log10)(larger_of(en[k], real_math.least)));
        assert(v(peak) == (real_math.log10)(larger_of(v(top), real_math.least)));
    }
    assert(are_levels(v, real_math, en, v(top), out));
}

/// The number of frames that is asked for is that of the spectrogram's columns: it covers the samples in
/// hops of 160 with a frame to spare, up to 3000.
pub proof fn law_frame_count_covers_samples(n_samples: usize, n: usize)
    requires
        call_ensures(mel::n_frames_for_samples, (n_samples,), n),
    ensures
        n == mel::frames_for(n_samples as nat),
        n <= 3000,
        n < 3000 ==> n_samples <= 160 * (n - 1) < n_samples + 160,
        n == 3000 ==> n_samples > 160 * 2998,
{
}

} // verus!
