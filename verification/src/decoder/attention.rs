//! Scaled dot-product attention.

use crate::decoder::kv_cache::LayerKVCache;
use core::ops::{Add, Mul, Sub};
use vstd::prelude::*;

verus! {

/// The functions of numbers that attention rests on.
pub struct AttnMath<T, M, E, R, Z, V> {
    /// The additive zero.
    pub zero: T,
    /// The number below all others.
    pub lowest: T,
    /// The larger of two numbers.
    pub larger: M,
    /// The exponential function.
    pub exp: E,
    /// The reciprocal.
    pub recip: R,
    /// Bit pattern of a number, by which numbers are compared with zero.
    pub to_bits: Z,
    /// The number of a bit pattern.
    pub from_bits: V,
}

impl<
    T,
    M: Fn(T, T) -> T,
    E: Fn(T) -> T,
    R: Fn(T) -> T,
    Z: Fn(T) -> u32,
    V: Fn(u32) -> T,
> AttnMath<T, M, E, R, Z, V> {
    /// Every function accepts every number, and the constants are what they are for.
    pub open spec fn total(&self) -> bool {
        &&& forall|a: T, b: T| #[trigger] call_requires(self.larger, (a, b))
        &&& forall|a: T| #[trigger] call_requires(self.exp, (a,))
        &&& forall|a: T| #[trigger] call_requires(self.recip, (a,))
        &&& forall|a: T| #[trigger] call_requires(self.to_bits, (a,))
        &&& call_ensures(self.from_bits, (crate::bits::ZERO_BITS,), self.zero)
        &&& call_ensures(self.from_bits, (crate::bits::NEG_INFINITY,), self.lowest)
    }

    /// Takes the functions, and computes the constants from them.
    pub fn new(larger: M, exp: E, recip: R, to_bits: Z, from_bits: V) -> (r: Self)
        requires
            forall|a: T, b: T| #[trigger] call_requires(larger, (a, b)),
            forall|a: T| #[trigger] call_requires(exp, (a,)),
            forall|a: T| #[trigger] call_requires(recip, (a,)),
            forall|a: T| #[trigger] call_requires(to_bits, (a,)),
            forall|b: u32| #[trigger] call_requires(from_bits, (b,)),
        ensures
            r.total(),
            r.larger == larger,
            r.exp == exp,
            r.recip == recip,
            r.to_bits == to_bits,
            r.from_bits == from_bits,
    {
        let zero: T = from_bits(crate::bits::ZERO_BITS);
        let lowest: T = from_bits(crate::bits::NEG_INFINITY);
        AttnMath { zero, lowest, larger, exp, recip, to_bits, from_bits }
    }
}

/// `out` is position-first data in head-first order.
pub open spec fn is_head_first<T>(
    data: Seq<T>,
    n_head: int,
    seq_len: int,
    head_dim: int,
    out: Seq<T>,
) -> bool {
    &&& out.len() == (n_head * seq_len) * head_dim
    &&& forall|h: int, s: int|
        0 <= h < n_head && 0 <= s < seq_len ==> #[trigger] crate::decoder::kv_cache::head_row(
            out,
            head_dim,
            h,
            seq_len,
            s,
        ) == crate::decoder::kv_cache::state_row(data, head_dim, s, n_head, h)
}

/// Rearrange [seq_len, n_state] -> [n_head, seq_len, head_dim]
pub fn to_head_first<T: Copy>(
    data: &[T],
    n_head: usize,
    seq_len: usize,
    head_dim: usize,
) -> (out: Vec<T>)
    requires
        n_head * seq_len <= usize::MAX,
        (n_head * seq_len) * head_dim <= data@.len(),
    ensures
        is_head_first(data@, n_head as int, seq_len as int, head_dim as int, out@),
{
    let len: usize = data.len();
    let ghost width = head_dim as int;
    let rows: usize = n_head * seq_len;
    let mut out: Vec<T> = Vec::with_capacity(len);
    let mut r: usize = 0;
    assert(0 * width == 0) by (nonlinear_arith);
    while r < rows
        invariant
            r <= rows,
            rows == n_head * seq_len,
            width == head_dim,
            (n_head * seq_len) * head_dim <= data@.len(),
            out@.len() == r * width,
            forall|q: int|
                0 <= q < r ==> #[trigger] crate::rows::row(out@, width, q)
                    == crate::decoder::kv_cache::state_row(
                    data@,
                    width,
                    q % seq_len as int,
                    n_head as int,
                    q / seq_len as int,
                ),
        decreases rows - r,
    {
        proof {
            crate::rows::lemma_place_splits(r as int, n_head as int, seq_len as int);
        }
        let h: usize = r / seq_len;
        let s: usize = r % seq_len;
        proof {
            crate::rows::lemma_place_fits(s as int, seq_len as int, n_head as int, h as int);
            assert(seq_len * n_head == n_head * seq_len) by (nonlinear_arith);
        }
        let from: usize = s * n_head + h;
        crate::rows::push_row(
            &mut out,
            head_dim,
            crate::rows::get_row(data, head_dim, from, Ghost(n_head * seq_len)),
            Ghost(r as int),
        );
        r = r + 1;
    }
    proof {
        assert forall|h: int, s: int|
            0 <= h < n_head && 0 <= s < seq_len implies #[trigger] crate::decoder::kv_cache::head_row(
            out@,
            width,
            h,
            seq_len as int,
            s,
        ) == crate::decoder::kv_cache::state_row(data@, width, s, n_head as int, h) by {
            crate::rows::lemma_place_fits(h, n_head as int, seq_len as int, s);
            crate::rows::lemma_pair_of_place(h, seq_len as int, s);
            let q = crate::rows::place(h, seq_len as int, s);
            assert(crate::rows::row(out@, width, q) == crate::decoder::kv_cache::state_row(
                data@,
                width,
                q % seq_len as int,
                n_head as int,
                q / seq_len as int,
            ));
        }
    }
    out
}

/// `w` holds the elements of `e` times `inverse`.
pub open spec fn are_scaled<T: Mul<Output = T>>(e: Seq<T>, inverse: T, w: Seq<T>) -> bool {
    &&& w.len() == e.len()
    &&& forall|i: int| 0 <= i < w.len() ==> crate::num::is_product(e[i], inverse, #[trigger] w[i])
}

/// `inverse` is the reciprocal of a positive number, and nothing for any other.
pub open spec fn is_inverse<T, R: Fn(T) -> T, Z: Fn(T) -> u32>(
    recip: R,
    to_bits: Z,
    s: T,
    inverse: Option<T>,
) -> bool {
    exists|b: u32| #[trigger]
        call_ensures(to_bits, (s,), b) && match inverse {
            Some(i) => crate::bits::above(b, crate::bits::ZERO_BITS) && call_ensures(
                recip,
                (s,),
                i,
            ),
            None => !crate::bits::above(b, crate::bits::ZERO_BITS),
        }
}

/// `z` tells whether a weight is zero.
pub open spec fn tells_zero<T, Z: Fn(T) -> u32>(to_bits: Z, w: T, z: bool) -> bool {
    exists|b: u32| #[trigger] call_ensures(to_bits, (w,), b) && z == crate::bits::is_zero(b)
}

/// How the softmax `w` of `x` came about: the exponentials `e` of the differences to the maximum
/// `top`, their sum `s`, and the inverse of the sum, by which they are multiplied if there is
/// one.
pub open spec fn softmax_by<
    T: Add<Output = T> + Sub<Output = T> + Mul<Output = T>,
    M: Fn(T, T) -> T,
    E: Fn(T) -> T,
    R: Fn(T) -> T,
    Z: Fn(T) -> u32,
    V: Fn(u32) -> T,
>(
    math: AttnMath<T, M, E, R, Z, V>,
    x: Seq<T>,
    top: T,
    e: Seq<T>,
    s: T,
    inverse: Option<T>,
    w: Seq<T>,
) -> bool {
    &&& crate::num::is_top(math.larger, math.lowest, x, top)
    &&& crate::probability::are_exps(math.exp, x, top, e)
    &&& crate::num::sum_of(math.zero, e, s)
    &&& is_inverse(math.recip, math.to_bits, s, inverse)
    &&& match inverse {
        Some(i) => are_scaled(e, i, w),
        None => w == e,
    }
}

/// `w` is the softmax of `x`.
pub open spec fn is_softmax<
    T: Add<Output = T> + Sub<Output = T> + Mul<Output = T>,
    M: Fn(T, T) -> T,
    E: Fn(T) -> T,
    R: Fn(T) -> T,
    Z: Fn(T) -> u32,
    V: Fn(u32) -> T,
>(math: AttnMath<T, M, E, R, Z, V>, x: Seq<T>, w: Seq<T>) -> bool {
    exists|top: T, e: Seq<T>, s: T, inverse: Option<T>| #[trigger]
        softmax_by(math, x, top, e, s, inverse, w)
}

/// The softmax of a row of scores.
pub fn softmax<
    T: Copy + Add<Output = T> + Sub<Output = T> + Mul<Output = T>,
    M: Fn(T, T) -> T,
    E: Fn(T) -> T,
    R: Fn(T) -> T,
    Z: Fn(T) -> u32,
    V: Fn(u32) -> T,
>(math: &AttnMath<T, M, E, R, Z, V>, x: &[T]) -> (w: Vec<T>)
    requires
        math.total(),
        crate::num::total_add::<T>(),
        crate::num::total_sub::<T>(),
        crate::num::total_mul::<T>(),
    ensures
        w@.len() == x@.len(),
        is_softmax(*math, x@, w@),
{
    let top: T = crate::num::find_top(&math.larger, math.lowest, x);
    let mut e: Vec<T> = Vec::with_capacity(x.len());
    let mut i: usize = 0;
    while i < x.len()
        invariant
            i <= x@.len(),
            math.total(),
            crate::num::total_sub::<T>(),
            e@.len() == i,
            forall|j: int|
                0 <= j < i ==> crate::probability::is_exp_of_difference(
                    math.exp,
                    x@[j],
                    top,
                    #[trigger] e@[j],
                ),
        decreases x@.len() - i,
    {
        let d: T = x[i] - top;
        let y: T = (math.exp)(d);
        assert(crate::num::is_difference(x@[i as int], top, d));
        e.push(y);
        i = i + 1;
    }
    let s: T = crate::num::sum(e.as_slice(), math.zero);
    let b: u32 = (math.to_bits)(s);
    let inverse: Option<T> = if crate::bits::is_above(b, crate::bits::ZERO_BITS) {
        Some((math.recip)(s))
    } else {
        None
    };
    assert(call_ensures(math.to_bits, (s,), b));
    assert(is_inverse(math.recip, math.to_bits, s, inverse));
    match inverse {
        Some(inv) => {
            let mut w: Vec<T> = Vec::with_capacity(e.len());
            let mut k: usize = 0;
            while k < e.len()
                invariant
                    k <= e@.len(),
                    crate::num::total_mul::<T>(),
                    w@.len() == k,
                    forall|j: int|
                        0 <= j < k ==> crate::num::is_product(e@[j], inv, #[trigger] w@[j]),
                decreases e@.len() - k,
            {
                w.push(e[k] * inv);
                k = k + 1;
            }
            assert(softmax_by(*math, x@, top, e@, s, inverse, w@));
            w
        },
        None => {
            assert(softmax_by(*math, x@, top, e@, s, inverse, e@));
            e
        },
    }
}

/// `s` is the score of a query against a key: their dot product times `scale`.
pub open spec fn is_score<T: Add<Output = T> + Mul<Output = T>>(
    zero: T,
    q: Seq<T>,
    key: Seq<T>,
    scale: T,
    s: T,
) -> bool {
    exists|p: T| #[trigger] crate::num::dot_of(zero, q, key, p) && crate::num::is_product(p, scale, s)
}

/// `scores` are those of a query against all keys.
pub open spec fn are_scores<T: Add<Output = T> + Mul<Output = T>>(
    zero: T,
    q: Seq<T>,
    keys: Seq<Seq<T>>,
    scale: T,
    scores: Seq<T>,
) -> bool {
    &&& scores.len() == keys.len()
    &&& forall|j: int|
        0 <= j < scores.len() ==> is_score(zero, q, keys[j], scale, #[trigger] scores[j])
}

/// The places whose flag is not set.
pub open spec fn unset(flags: Seq<bool>) -> Seq<int>
    decreases flags.len(),
{
    if flags.len() == 0 {
        Seq::empty()
    } else if flags.last() {
        unset(flags.drop_last())
    } else {
        unset(flags.drop_last()).push(flags.len() - 1)
    }
}

/// `t` holds the weights at `places` times element `d` of the values there.
pub open spec fn are_weighted<T: Mul<Output = T>>(
    w: Seq<T>,
    values: Seq<Seq<T>>,
    places: Seq<int>,
    d: int,
    t: Seq<T>,
) -> bool {
    &&& t.len() == places.len()
    &&& forall|m: int|
        0 <= m < t.len() ==> crate::num::is_product(
            w[places[m]],
            values[places[m]][d],
            #[trigger] t[m],
        )
}

/// `r` is the sum of the weighted values' elements `d`, over `places` from left to right.
pub open spec fn is_weighted_sum<T: Add<Output = T> + Mul<Output = T>>(
    zero: T,
    w: Seq<T>,
    values: Seq<Seq<T>>,
    places: Seq<int>,
    d: int,
    r: T,
) -> bool {
    exists|t: Seq<T>| #[trigger]
        are_weighted(w, values, places, d, t) && crate::num::sum_of(zero, t, r)
}

/// How the attention output came about: scores `s`, their softmax `w`, and the sum of the values
/// by weight, where weights that are zero are skipped.
pub open spec fn attended_by<
    T: Add<Output = T> + Sub<Output = T> + Mul<Output = T>,
    M: Fn(T, T) -> T,
    E: Fn(T) -> T,
    R: Fn(T) -> T,
    Z: Fn(T) -> u32,
    V: Fn(u32) -> T,
>(
    math: AttnMath<T, M, E, R, Z, V>,
    q: Seq<T>,
    keys: Seq<Seq<T>>,
    values: Seq<Seq<T>>,
    scale: T,
    s: Seq<T>,
    w: Seq<T>,
    zeros: Seq<bool>,
    out: Seq<T>,
) -> bool {
    &&& are_scores(math.zero, q, keys, scale, s)
    &&& is_softmax(math, s, w)
    &&& zeros.len() == w.len()
    &&& forall|j: int|
        0 <= j < zeros.len() ==> tells_zero(math.to_bits, w[j], #[trigger] zeros[j])
    &&& out.len() == q.len()
    &&& forall|d: int|
        0 <= d < out.len() ==> is_weighted_sum(
            math.zero,
            w,
            values,
            unset(zeros),
            d,
            #[trigger] out[d],
        )
}

/// `out` is what a query attends to among keys and values.
pub open spec fn is_attention<
    T: Add<Output = T> + Sub<Output = T> + Mul<Output = T>,
    M: Fn(T, T) -> T,
    E: Fn(T) -> T,
    R: Fn(T) -> T,
    Z: Fn(T) -> u32,
    V: Fn(u32) -> T,
>(
    math: AttnMath<T, M, E, R, Z, V>,
    q: Seq<T>,
    keys: Seq<Seq<T>>,
    values: Seq<Seq<T>>,
    scale: T,
    out: Seq<T>,
) -> bool {
    exists|s: Seq<T>, w: Seq<T>, zeros: Seq<bool>| #[trigger]
        attended_by(math, q, keys, values, scale, s, w, zeros, out)
}

/// The first `n` rows of a matrix.
pub open spec fn rows_of<T>(data: Seq<T>, width: int, n: int) -> Seq<Seq<T>> {
    Seq::new(n as nat, |j: int| crate::rows::row(data, width, j))
}

/// One more place extends a weighted sum.
proof fn lemma_weighted_push<T: Add<Output = T> + Mul<Output = T>>(
    zero: T,
    w: Seq<T>,
    values: Seq<Seq<T>>,
    places: Seq<int>,
    d: int,
    r: T,
    j: int,
    p: T,
    r2: T,
)
    requires
        is_weighted_sum(zero, w, values, places, d, r),
        crate::num::is_product(w[j], values[j][d], p),
        crate::num::is_sum(r, p, r2),
    ensures
        is_weighted_sum(zero, w, values, places.push(j), d, r2),
{
    let t = choose|t: Seq<T>| #[trigger]
        are_weighted(w, values, places, d, t) && crate::num::sum_of(zero, t, r);
    crate::num::lemma_sum_of_push(zero, t, r, p, r2);
    let longer = t.push(p);
    let more = places.push(j);
    assert forall|m: int| 0 <= m < longer.len() implies crate::num::is_product(
        w[more[m]],
        values[more[m]][d],
        #[trigger] longer[m],
    ) by {
        if m < t.len() {
            assert(crate::num::is_product(w[places[m]], values[places[m]][d], t[m]));
        }
    }
    assert(are_weighted(w, values, more, d, longer));
}

/// What a query attends to among the first `n` rows of keys and values.
pub fn attend<
    T: Copy + Add<Output = T> + Sub<Output = T> + Mul<Output = T>,
    M: Fn(T, T) -> T,
    E: Fn(T) -> T,
    R: Fn(T) -> T,
    Z: Fn(T) -> u32,
    V: Fn(u32) -> T,
>(math: &AttnMath<T, M, E, R, Z, V>, q: &[T], k: &[T], v: &[T], n: usize, scale: T) -> (out: Vec<T>)
    requires
        math.total(),
        crate::num::total_add::<T>(),
        crate::num::total_sub::<T>(),
        crate::num::total_mul::<T>(),
        n * q@.len() <= k@.len(),
        n * q@.len() <= v@.len(),
    ensures
        out@.len() == q@.len(),
        is_attention(
            *math,
            q@,
            rows_of(k@, q@.len() as int, n as int),
            rows_of(v@, q@.len() as int, n as int),
            scale,
            out@,
        ),
{
    let width: usize = q.len();
    let ghost keys = rows_of(k@, width as int, n as int);
    let ghost values = rows_of(v@, width as int, n as int);
    let mut s: Vec<T> = Vec::with_capacity(n);
    let mut j: usize = 0;
    while j < n
        invariant
            j <= n,
            width == q@.len(),
            n * width <= k@.len(),
            keys == rows_of(k@, width as int, n as int),
            crate::num::total_add::<T>(),
            crate::num::total_mul::<T>(),
            s@.len() == j,
            forall|i: int|
                0 <= i < j ==> is_score(math.zero, q@, keys[i], scale, #[trigger] s@[i]),
        decreases n - j,
    {
        let key: &[T] = crate::rows::get_row(k, width, j, Ghost(n as int));
        assert(key@ == keys[j as int]);
        let p: T = crate::num::dot(q, key, math.zero);
        let score: T = p * scale;
        assert(is_score(math.zero, q@, keys[j as int], scale, score));
        s.push(score);
        j = j + 1;
    }
    assert(are_scores(math.zero, q@, keys, scale, s@));
    let w: Vec<T> = softmax(math, s.as_slice());
    let mut out: Vec<T> = crate::rows::filled(width, math.zero);
    let ghost mut zeros: Seq<bool> = Seq::empty();
    proof {
        crate::num::lemma_sum_of_none(math.zero);
        assert forall|d: int| 0 <= d < width implies is_weighted_sum(
            math.zero,
            w@,
            values,
            unset(zeros),
            d,
            #[trigger] out@[d],
        ) by {
            assert(are_weighted(w@, values, unset(zeros), d, Seq::empty()));
        }
    }
    let mut i: usize = 0;
    while i < n
        invariant
            i <= n,
            width == q@.len(),
            n * width <= v@.len(),
            w@.len() == n,
            values == rows_of(v@, width as int, n as int),
            math.total(),
            crate::num::total_add::<T>(),
            crate::num::total_mul::<T>(),
            zeros.len() == i,
            forall|m: int|
                0 <= m < i ==> tells_zero(math.to_bits, w@[m], #[trigger] zeros[m]),
            out@.len() == width,
            forall|d: int|
                0 <= d < width ==> is_weighted_sum(
                    math.zero,
                    w@,
                    values,
                    unset(zeros),
                    d,
                    #[trigger] out@[d],
                ),
        decreases n - i,
    {
        let weight: T = w[i];
        let b: u32 = (math.to_bits)(weight);
        let skip: bool = crate::bits::get_rank(b) == 0;
        assert(call_ensures(math.to_bits, (weight,), b));
        let ghost before = unset(zeros);
        proof {
            let longer = zeros.push(skip);
            assert(longer.drop_last() =~= zeros);
            assert(longer.last() == skip);
            zeros = longer;
        }
        if !skip {
            let value: &[T] = crate::rows::get_row(v, width, i, Ghost(n as int));
            assert(value@ == values[i as int]);
            let mut d: usize = 0;
            while d < width
                invariant
                    d <= width,
                    i < n,
                    weight == w@[i as int],
                    value@.len() == width,
                    value@ == values[i as int],
                    crate::num::total_add::<T>(),
                    crate::num::total_mul::<T>(),
                    out@.len() == width,
                    forall|c: int|
                        0 <= c < d ==> is_weighted_sum(
                            math.zero,
                            w@,
                            values,
                            before.push(i as int),
                            c,
                            #[trigger] out@[c],
                        ),
                    forall|c: int|
                        d <= c < width ==> is_weighted_sum(
                            math.zero,
                            w@,
                            values,
                            before,
                            c,
                            #[trigger] out@[c],
                        ),
                decreases width - d,
            {
                let p: T = weight * value[d];
                let old_sum: T = out[d];
                let sum: T = old_sum + p;
                proof {
                    lemma_weighted_push(
                        math.zero,
                        w@,
                        values,
                        before,
                        d as int,
                        old_sum,
                        i as int,
                        p,
                        sum,
                    );
                }
                out.set(d, sum);
                d = d + 1;
            }
        }
        i = i + 1;
    }
    assert(attended_by(*math, q@, keys, values, scale, s@, w@, zeros, out@));
    out
}

/// Configuration for the cached scaled dot-product attention.
pub struct CachedSdpaConfig {
    /// Number of attention heads.
    pub n_head: usize,
    /// Number of queries.
    pub q_len: usize,
    /// Number of cached positions, those of the queries included.
    pub kv_len: usize,
    /// Elements per head and position.
    pub head_dim: usize,
    /// Number of cached positions before the first query.
    pub past_len: usize,
    /// Whether a query is kept from attending to later positions.
    pub causal_mask: bool,
}

impl CachedSdpaConfig {
    /// The number of positions that query `i` attends to: all of them without a mask, else those
    /// up to its own. A single query takes its own position as it stands.
    pub open spec fn valid_len(&self, i: int) -> int {
        if !self.causal_mask {
            self.kv_len as int
        } else if self.q_len == 1 {
            self.past_len + 1
        } else if self.past_len + i + 1 <= self.kv_len {
            self.past_len + i + 1
        } else {
            self.kv_len as int
        }
    }
}

/// The keys of head `h` at the first `n` positions of a cache.
pub open spec fn cached_keys<T>(kv: LayerKVCache<T>, h: int, n: int) -> Seq<Seq<T>> {
    Seq::new(n as nat, |s: int| kv.key(h, s))
}

/// The values of head `h` at the first `n` positions of a cache.
pub open spec fn cached_values<T>(kv: LayerKVCache<T>, h: int, n: int) -> Seq<Seq<T>> {
    Seq::new(n as nat, |s: int| kv.value(h, s))
}

/// The rows of head `h` in head-first storage of `n` positions per head.
pub open spec fn flat_rows<T>(data: Seq<T>, head_dim: int, h: int, n: int) -> Seq<Seq<T>> {
    Seq::new(n as nat, |s: int| crate::decoder::kv_cache::head_row(data, head_dim, h, n, s))
}

/// `out` is the attention of all queries `q` (head-first) against a cache: what head `h` of query
/// `i` attends to stands at position `i` of head `h` (position-first).
pub open spec fn is_cached_attention<
    T: Add<Output = T> + Sub<Output = T> + Mul<Output = T>,
    M: Fn(T, T) -> T,
    E: Fn(T) -> T,
    R: Fn(T) -> T,
    Z: Fn(T) -> u32,
    V: Fn(u32) -> T,
>(
    math: AttnMath<T, M, E, R, Z, V>,
    q: Seq<T>,
    kv: LayerKVCache<T>,
    cfg: CachedSdpaConfig,
    scale: T,
    out: Seq<T>,
) -> bool {
    &&& out.len() == (cfg.q_len * cfg.n_head) * cfg.head_dim
    &&& forall|i: int, h: int|
        0 <= i < cfg.q_len && 0 <= h < cfg.n_head ==> is_attention(
            math,
            crate::decoder::kv_cache::head_row(q, cfg.head_dim as int, h, cfg.q_len as int, i),
            cached_keys(kv, h, cfg.valid_len(i)),
            cached_values(kv, h, cfg.valid_len(i)),
            scale,
            #[trigger] crate::decoder::kv_cache::state_row(
                out,
                cfg.head_dim as int,
                i,
                cfg.n_head as int,
                h,
            ),
        )
}

/// `out` is the attention of all queries `q` against all positions of head-first keys and values.
pub open spec fn is_flat_attention<
    T: Add<Output = T> + Sub<Output = T> + Mul<Output = T>,
    M: Fn(T, T) -> T,
    E: Fn(T) -> T,
    R: Fn(T) -> T,
    Z: Fn(T) -> u32,
    V: Fn(u32) -> T,
>(
    math: AttnMath<T, M, E, R, Z, V>,
    q: Seq<T>,
    k: Seq<T>,
    v: Seq<T>,
    n_head: int,
    q_len: int,
    kv_len: int,
    head_dim: int,
    scale: T,
    out: Seq<T>,
) -> bool {
    &&& out.len() == (q_len * n_head) * head_dim
    &&& forall|i: int, h: int|
        0 <= i < q_len && 0 <= h < n_head ==> is_attention(
            math,
            crate::decoder::kv_cache::head_row(q, head_dim, h, q_len, i),
            flat_rows(k, head_dim, h, kv_len),
            flat_rows(v, head_dim, h, kv_len),
            scale,
            #[trigger] crate::decoder::kv_cache::state_row(out, head_dim, i, n_head, h),
        )
}

/// Scaled dot-product attention using the KV cache. Under the causal mask only the positions
/// that a query is allowed to attend to are visited.
pub fn scaled_dot_product_cached<
    T: Copy + Add<Output = T> + Sub<Output = T> + Mul<Output = T>,
    M: Fn(T, T) -> T,
    E: Fn(T) -> T,
    R: Fn(T) -> T,
    Z: Fn(T) -> u32,
    V: Fn(u32) -> T,
>(
    math: &AttnMath<T, M, E, R, Z, V>,
    q: &[T],
    kv: &LayerKVCache<T>,
    cfg: &CachedSdpaConfig,
    scale: T,
) -> (out: Vec<T>)
    requires
        math.total(),
        crate::num::total_add::<T>(),
        crate::num::total_sub::<T>(),
        crate::num::total_mul::<T>(),
        kv.wf(),
        kv.n_head == cfg.n_head,
        kv.head_dim == cfg.head_dim,
        if cfg.causal_mask && cfg.q_len == 1 {
            cfg.past_len < kv.seq_len
        } else {
            cfg.kv_len <= kv.seq_len
        },
        cfg.q_len * cfg.n_head <= usize::MAX,
        (cfg.n_head * cfg.q_len) * cfg.head_dim <= q@.len(),
    ensures
        is_cached_attention(*math, q@, *kv, *cfg, scale, out@),
{
    let n_head: usize = cfg.n_head;
    let q_len: usize = cfg.q_len;
    let head_dim: usize = cfg.head_dim;
    let ghost width = head_dim as int;
    proof {
        assert(q_len * n_head == n_head * q_len) by (nonlinear_arith);
        assert(0 * width == 0) by (nonlinear_arith);
    }
    let rows: usize = q_len * n_head;
    let mut out: Vec<T> = Vec::with_capacity(q.len());
    let mut r: usize = 0;
    while r < rows
        invariant
            r <= rows,
            rows == q_len * n_head,
            n_head == cfg.n_head,
            q_len == cfg.q_len,
            head_dim == cfg.head_dim,
            width == head_dim,
            q_len * n_head == n_head * q_len,
            math.total(),
            crate::num::total_add::<T>(),
            crate::num::total_sub::<T>(),
            crate::num::total_mul::<T>(),
            kv.wf(),
            kv.n_head == n_head,
            kv.head_dim == head_dim,
            if cfg.causal_mask && cfg.q_len == 1 {
                cfg.past_len < kv.seq_len
            } else {
                cfg.kv_len <= kv.seq_len
            },
            (n_head * q_len) * head_dim <= q@.len(),
            out@.len() == r * width,
            forall|s: int|
                0 <= s < r ==> is_attention(
                    *math,
                    crate::decoder::kv_cache::head_row(
                        q@,
                        width,
                        s % n_head as int,
                        q_len as int,
                        s / n_head as int,
                    ),
                    cached_keys(*kv, s % n_head as int, cfg.valid_len(s / n_head as int)),
                    cached_values(*kv, s % n_head as int, cfg.valid_len(s / n_head as int)),
                    scale,
                    #[trigger] crate::rows::row(out@, width, s),
                ),
        decreases rows - r,
    {
        proof {
            crate::rows::lemma_place_splits(r as int, q_len as int, n_head as int);
        }
        let i: usize = r / n_head;
        let h: usize = r % n_head;
        let valid: usize = if !cfg.causal_mask {
            cfg.kv_len
        } else if q_len == 1 {
            cfg.past_len + 1
        } else if cfg.past_len < cfg.kv_len && i < cfg.kv_len - cfg.past_len {
            cfg.past_len + i + 1
        } else {
            cfg.kv_len
        };
        assert(valid == cfg.valid_len(i as int));
        proof {
            crate::rows::lemma_place_fits(h as int, n_head as int, q_len as int, i as int);
        }
        let k: &[T] = kv.k_head(h);
        let v: &[T] = kv.v_head(h);
        proof {
            assert(valid * width <= kv.seq_len * width) by (nonlinear_arith)
                requires
                    0 <= valid <= kv.seq_len,
                    0 <= width,
            ;
            assert(rows_of(k@, width, valid as int) =~= cached_keys(*kv, h as int, valid as int));
            assert(rows_of(v@, width, valid as int) =~= cached_values(
                *kv,
                h as int,
                valid as int,
            ));
        }
        let query: &[T] = crate::rows::get_row(
            q,
            head_dim,
            h * q_len + i,
            Ghost(n_head * q_len),
        );
        let attended: Vec<T> = attend(math, query, k, v, valid, scale);
        crate::rows::push_row(&mut out, head_dim, attended.as_slice(), Ghost(r as int));
        r = r + 1;
    }
    proof {
        assert forall|i: int, h: int| 0 <= i < q_len && 0 <= h < n_head implies is_attention(
            *math,
            crate::decoder::kv_cache::head_row(q@, width, h, q_len as int, i),
            cached_keys(*kv, h, cfg.valid_len(i)),
            cached_values(*kv, h, cfg.valid_len(i)),
            scale,
            #[trigger] crate::decoder::kv_cache::state_row(out@, width, i, n_head as int, h),
        ) by {
            crate::rows::lemma_place_fits(i, q_len as int, n_head as int, h);
            crate::rows::lemma_pair_of_place(i, n_head as int, h);
            let s = crate::rows::place(i, n_head as int, h);
            let own = crate::rows::row(out@, width, s);
            assert(own == crate::decoder::kv_cache::state_row(out@, width, i, n_head as int, h));
        }
    }
    out
}

/// Scaled dot-product attention for cross-attention (flat head-first K,V, no causal mask).
pub fn scaled_dot_product_flat<
    T: Copy + Add<Output = T> + Sub<Output = T> + Mul<Output = T>,
    M: Fn(T, T) -> T,
    E: Fn(T) -> T,
    R: Fn(T) -> T,
    Z: Fn(T) -> u32,
    V: Fn(u32) -> T,
>(
    math: &AttnMath<T, M, E, R, Z, V>,
    q: &[T],
    k: &[T],
    v: &[T],
    n_head: usize,
    q_len: usize,
    kv_len: usize,
    head_dim: usize,
    scale: T,
) -> (out: Vec<T>)
    requires
        math.total(),
        crate::num::total_add::<T>(),
        crate::num::total_sub::<T>(),
        crate::num::total_mul::<T>(),
        q_len * n_head <= usize::MAX,
        n_head * kv_len <= usize::MAX,
        (n_head * q_len) * head_dim <= q@.len(),
        (n_head * kv_len) * head_dim == k@.len(),
        (n_head * kv_len) * head_dim == v@.len(),
    ensures
        is_flat_attention(
            *math,
            q@,
            k@,
            v@,
            n_head as int,
            q_len as int,
            kv_len as int,
            head_dim as int,
            scale,
            out@,
        ),
{
    let ghost width = head_dim as int;
    proof {
        assert(q_len * n_head == n_head * q_len) by (nonlinear_arith);
        assert(0 * width == 0) by (nonlinear_arith);
    }
    let rows: usize = q_len * n_head;
    let mut out: Vec<T> = Vec::with_capacity(q.len());
    let mut r: usize = 0;
    while r < rows
        invariant
            r <= rows,
            rows == q_len * n_head,
            width == head_dim,
            q_len * n_head == n_head * q_len,
            math.total(),
            crate::num::total_add::<T>(),
            crate::num::total_sub::<T>(),
            crate::num::total_mul::<T>(),
            n_head * kv_len <= usize::MAX,
            (n_head * q_len) * head_dim <= q@.len(),
            (n_head * kv_len) * head_dim == k@.len(),
            (n_head * kv_len) * head_dim == v@.len(),
            out@.len() == r * width,
            forall|s: int|
                0 <= s < r ==> is_attention(
                    *math,
                    crate::decoder::kv_cache::head_row(
                        q@,
                        width,
                        s % n_head as int,
                        q_len as int,
                        s / n_head as int,
                    ),
                    flat_rows(k@, width, s % n_head as int, kv_len as int),
                    flat_rows(v@, width, s % n_head as int, kv_len as int),
                    scale,
                    #[trigger] crate::rows::row(out@, width, s),
                ),
        decreases rows - r,
    {
        proof {
            crate::rows::lemma_place_splits(r as int, q_len as int, n_head as int);
        }
        let i: usize = r / n_head;
        let h: usize = r % n_head;
        proof {
            crate::rows::lemma_place_fits(h as int, n_head as int, q_len as int, i as int);
        }
        let kh: &[T] = crate::decoder::kv_cache::head_part(k, n_head, head_dim, kv_len, kv_len, h);
        let vh: &[T] = crate::decoder::kv_cache::head_part(v, n_head, head_dim, kv_len, kv_len, h);
        proof {
            assert(rows_of(kh@, width, kv_len as int) =~= flat_rows(
                k@,
                width,
                h as int,
                kv_len as int,
            ));
            assert(rows_of(vh@, width, kv_len as int) =~= flat_rows(
                v@,
                width,
                h as int,
                kv_len as int,
            ));
        }
        let query: &[T] = crate::rows::get_row(
            q,
            head_dim,
            h * q_len + i,
            Ghost(n_head * q_len),
        );
        let attended: Vec<T> = attend(math, query, kh, vh, kv_len, scale);
        crate::rows::push_row(&mut out, head_dim, attended.as_slice(), Ghost(r as int));
        r = r + 1;
    }
    proof {
        assert forall|i: int, h: int| 0 <= i < q_len && 0 <= h < n_head implies is_attention(
            *math,
            crate::decoder::kv_cache::head_row(q@, width, h, q_len as int, i),
            flat_rows(k@, width, h, kv_len as int),
            flat_rows(v@, width, h, kv_len as int),
            scale,
            #[trigger] crate::decoder::kv_cache::state_row(out@, width, i, n_head as int, h),
        ) by {
            crate::rows::lemma_place_fits(i, q_len as int, n_head as int, h);
            crate::rows::lemma_pair_of_place(i, n_head as int, h);
            let s = crate::rows::place(i, n_head as int, h);
            let own = crate::rows::row(out@, width, s);
            assert(own == crate::decoder::kv_cache::state_row(out@, width, i, n_head as int, h));
        }
    }
    out
}

/// Under the causal mask, what query `i` attends to rests on the positions up to its own alone: it
/// would be the same with any other cache that agrees on those.
pub proof fn law_causal_mask_hides_later_positions<
    T: Add<Output = T> + Sub<Output = T> + Mul<Output = T>,
    M: Fn(T, T) -> T,
    E: Fn(T) -> T,
    R: Fn(T) -> T,
    Z: Fn(T) -> u32,
    V: Fn(u32) -> T,
>(
    math: AttnMath<T, M, E, R, Z, V>,
    q: Seq<T>,
    kv: LayerKVCache<T>,
    other: LayerKVCache<T>,
    cfg: CachedSdpaConfig,
    scale: T,
    out: Seq<T>,
    i: int,
    h: int,
)
    requires
        is_cached_attention(math, q, kv, cfg, scale, out),
        cfg.causal_mask,
        0 <= i < cfg.q_len,
        0 <= h < cfg.n_head,
        forall|s: int|
            0 <= s <= cfg.past_len + i ==> #[trigger] other.key(h, s) == kv.key(h, s),
        forall|s: int|
            0 <= s <= cfg.past_len + i ==> #[trigger] other.value(h, s) == kv.value(h, s),
    ensures
        is_attention(
            math,
            crate::decoder::kv_cache::head_row(q, cfg.head_dim as int, h, cfg.q_len as int, i),
            cached_keys(other, h, cfg.valid_len(i)),
            cached_values(other, h, cfg.valid_len(i)),
            scale,
            crate::decoder::kv_cache::state_row(
                out,
                cfg.head_dim as int,
                i,
                cfg.n_head as int,
                h,
            ),
        ),
{
    let n = cfg.valid_len(i);
    assert(cached_keys(other, h, n) =~= cached_keys(kv, h, n));
    assert(cached_values(other, h, n) =~= cached_values(kv, h, n));
}

} // verus!
