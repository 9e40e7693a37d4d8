//! Attention gives one result where the operations on numbers do.

use crate::decoder::attention::{AttnMath, CachedSdpaConfig};
use crate::decoder::kv_cache::LayerKVCache;
use core::ops::{Add, Mul, Sub};
use vstd::prelude::*;

verus! {

/// Every operation that attention rests on gives one result for its operands.
pub open spec fn single_valued<
    T: Add<Output = T> + Sub<Output = T> + Mul<Output = T>,
    M: Fn(T, T) -> T,
    E: Fn(T) -> T,
    R: Fn(T) -> T,
    Z: Fn(T) -> u32,
    V: Fn(u32) -> T,
>(math: AttnMath<T, M, E, R, Z, V>) -> bool {
    &&& crate::num::single_valued::<T>()
    &&& forall|a: T, b: T, r: T, s: T|
        #![trigger call_ensures(math.larger, (a, b), r), call_ensures(math.larger, (a, b), s)]
        call_ensures(math.larger, (a, b), r) && call_ensures(math.larger, (a, b), s) ==> r == s
    &&& forall|a: T, r: T, s: T|
        #![trigger call_ensures(math.exp, (a,), r), call_ensures(math.exp, (a,), s)]
        call_ensures(math.exp, (a,), r) && call_ensures(math.exp, (a,), s) ==> r == s
    &&& forall|a: T, r: T, s: T|
        #![trigger call_ensures(math.recip, (a,), r), call_ensures(math.recip, (a,), s)]
        call_ensures(math.recip, (a,), r) && call_ensures(math.recip, (a,), s) ==> r == s
    &&& forall|a: T, r: u32, s: u32|
        #![trigger call_ensures(math.to_bits, (a,), r), call_ensures(math.to_bits, (a,), s)]
        call_ensures(math.to_bits, (a,), r) && call_ensures(math.to_bits, (a,), s) ==> r == s
}

/// Running totals are determined.
proof fn lemma_running_sums<T: Add<Output = T> + Sub<Output = T> + Mul<Output = T>>(
    init: T,
    terms: Seq<T>,
    a: Seq<T>,
    b: Seq<T>,
    n: int,
)
    requires
        crate::num::single_valued::<T>(),
        crate::num::running_sums(init, terms, a),
        crate::num::running_sums(init, terms, b),
        0 <= n <= terms.len(),
    ensures
        a[n] == b[n],
    decreases n,
{
    if n > 0 {
        lemma_running_sums(init, terms, a, b, n - 1);
        assert(crate::num::is_sum(a[n - 1], terms[n - 1], a[n - 1 + 1]));
        assert(crate::num::is_sum(b[n - 1], terms[n - 1], b[n - 1 + 1]));
    }
}

/// A sum is determined.
proof fn lemma_sum<T: Add<Output = T> + Sub<Output = T> + Mul<Output = T>>(
    init: T,
    terms: Seq<T>,
    r: T,
    s: T,
)
    requires
        crate::num::single_valued::<T>(),
        crate::num::sum_of(init, terms, r),
        crate::num::sum_of(init, terms, s),
    ensures
        r == s,
{
    let a = choose|a: Seq<T>| #[trigger]
        crate::num::running_sums(init, terms, a) && a.last() == r;
    let b = choose|b: Seq<T>| #[trigger]
        crate::num::running_sums(init, terms, b) && b.last() == s;
    lemma_running_sums(init, terms, a, b, terms.len() as int);
}

/// A score is determined.
proof fn lemma_score<T: Add<Output = T> + Sub<Output = T> + Mul<Output = T>>(
    zero: T,
    q: Seq<T>,
    key: Seq<T>,
    scale: T,
    r: T,
    s: T,
)
    requires
        crate::num::single_valued::<T>(),
        crate::decoder::attention::is_score(zero, q, key, scale, r),
        crate::decoder::attention::is_score(zero, q, key, scale, s),
    ensures
        r == s,
{
    let a = choose|p: T| #[trigger]
        crate::num::dot_of(zero, q, key, p) && crate::num::is_product(p, scale, r);
    let b = choose|p: T| #[trigger]
        crate::num::dot_of(zero, q, key, p) && crate::num::is_product(p, scale, s);
    let ta = choose|t: Seq<T>| #[trigger]
        crate::num::products(q, key, t) && crate::num::sum_of(zero, t, a);
    let tb = choose|t: Seq<T>| #[trigger]
        crate::num::products(q, key, t) && crate::num::sum_of(zero, t, b);
    assert forall|i: int| 0 <= i < ta.len() implies ta[i] == tb[i] by {
        assert(crate::num::is_product(q[i], key[i], ta[i]));
        assert(crate::num::is_product(q[i], key[i], tb[i]));
    }
    assert(ta =~= tb);
    lemma_sum(zero, ta, a, b);
}

/// Running maxima are determined.
proof fn lemma_running_tops<
    T: Add<Output = T> + Sub<Output = T> + Mul<Output = T>,
    M: Fn(T, T) -> T,
    E: Fn(T) -> T,
    R: Fn(T) -> T,
    Z: Fn(T) -> u32,
    V: Fn(u32) -> T,
>(math: AttnMath<T, M, E, R, Z, V>, x: Seq<T>, a: Seq<T>, b: Seq<T>, n: int)
    requires
        single_valued(math),
        crate::num::running_tops(math.larger, math.lowest, x, a),
        crate::num::running_tops(math.larger, math.lowest, x, b),
        0 <= n <= x.len(),
    ensures
        a[n] == b[n],
    decreases n,
{
    if n > 0 {
        lemma_running_tops(math, x, a, b, n - 1);
        assert(call_ensures(math.larger, (a[n - 1], x[n - 1]), a[n - 1 + 1]));
        assert(call_ensures(math.larger, (b[n - 1], x[n - 1]), b[n - 1 + 1]));
    }
}

/// A softmax is determined.
proof fn lemma_softmax<
    T: Add<Output = T> + Sub<Output = T> + Mul<Output = T>,
    M: Fn(T, T) -> T,
    E: Fn(T) -> T,
    R: Fn(T) -> T,
    Z: Fn(T) -> u32,
    V: Fn(u32) -> T,
>(math: AttnMath<T, M, E, R, Z, V>, x: Seq<T>, v: Seq<T>, w: Seq<T>)
    requires
        single_valued(math),
        crate::decoder::attention::is_softmax(math, x, v),
        crate::decoder::attention::is_softmax(math, x, w),
    ensures
        v == w,
{
    let (ta, ea, sa, ia) = choose|top: T, e: Seq<T>, s: T, inverse: Option<T>| #[trigger]
        crate::decoder::attention::softmax_by(math, x, top, e, s, inverse, v);
    let (tb, eb, sb, ib) = choose|top: T, e: Seq<T>, s: T, inverse: Option<T>| #[trigger]
        crate::decoder::attention::softmax_by(math, x, top, e, s, inverse, w);
    let ra = choose|tops: Seq<T>| #[trigger]
        crate::num::running_tops(math.larger, math.lowest, x, tops) && tops.last() == ta;
    let rb = choose|tops: Seq<T>| #[trigger]
        crate::num::running_tops(math.larger, math.lowest, x, tops) && tops.last() == tb;
    lemma_running_tops(math, x, ra, rb, x.len() as int);
    assert(ta == tb);
    assert forall|i: int| 0 <= i < ea.len() implies ea[i] == eb[i] by {
        assert(crate::probability::is_exp_of_difference(math.exp, x[i], ta, ea[i]));
        assert(crate::probability::is_exp_of_difference(math.exp, x[i], ta, eb[i]));
        let da = choose|d: T| #[trigger]
            crate::num::is_difference(x[i], ta, d) && call_ensures(math.exp, (d,), ea[i]);
        let db = choose|d: T| #[trigger]
            crate::num::is_difference(x[i], ta, d) && call_ensures(math.exp, (d,), eb[i]);
        assert(da == db);
    }
    assert(ea =~= eb);
    lemma_sum(math.zero, ea, sa, sb);
    assert(ia == ib);
    if let Some(i) = ia {
        assert forall|k: int| 0 <= k < v.len() implies v[k] == w[k] by {
            assert(crate::num::is_product(ea[k], i, v[k]));
            assert(crate::num::is_product(ea[k], i, w[k]));
        }
    }
    assert(v =~= w);
}

/// A weighted sum is determined.
proof fn lemma_weighted_sum<T: Add<Output = T> + Sub<Output = T> + Mul<Output = T>>(
    zero: T,
    w: Seq<T>,
    values: Seq<Seq<T>>,
    places: Seq<int>,
    d: int,
    r: T,
    s: T,
)
    requires
        crate::num::single_valued::<T>(),
        crate::decoder::attention::is_weighted_sum(zero, w, values, places, d, r),
        crate::decoder::attention::is_weighted_sum(zero, w, values, places, d, s),
    ensures
        r == s,
{
    let a = choose|t: Seq<T>| #[trigger]
        crate::decoder::attention::are_weighted(w, values, places, d, t) && crate::num::sum_of(
            zero,
            t,
            r,
        );
    let b = choose|t: Seq<T>| #[trigger]
        crate::decoder::attention::are_weighted(w, values, places, d, t) && crate::num::sum_of(
            zero,
            t,
            s,
        );
    assert forall|m: int| 0 <= m < a.len() implies a[m] == b[m] by {
        assert(crate::num::is_product(w[places[m]], values[places[m]][d], a[m]));
        assert(crate::num::is_product(w[places[m]], values[places[m]][d], b[m]));
    }
    assert(a =~= b);
    lemma_sum(zero, a, r, s);
}

/// Where every operation gives one result, so does attention.
pub proof fn law_attention_is_determined<
    T: Add<Output = T> + Sub<Output = T> + Mul<Output = T>,
    M: Fn(T, T) -> T,
    E: Fn(T) -> T,
    R: Fn(T) -> T,
    Z: Fn(T) -> u32,
    V: Fn(u32) -> T,
>(
    math: AttnMath<T, M, E, R, Z, V>,
    q: Seq<T>,
    keys: Seq<Seq<T>>,
    values: Seq<Seq<T>>,
    scale: T,
    a: Seq<T>,
    b: Seq<T>,
)
    requires
        single_valued(math),
        crate::decoder::attention::is_attention(math, q, keys, values, scale, a),
        crate::decoder::attention::is_attention(math, q, keys, values, scale, b),
    ensures
        a == b,
{
    let (sa, wa, za) = choose|s: Seq<T>, w: Seq<T>, zeros: Seq<bool>| #[trigger]
        crate::decoder::attention::attended_by(math, q, keys, values, scale, s, w, zeros, a);
    let (sb, wb, zb) = choose|s: Seq<T>, w: Seq<T>, zeros: Seq<bool>| #[trigger]
        crate::decoder::attention::attended_by(math, q, keys, values, scale, s, w, zeros, b);
    assert forall|j: int| 0 <= j < sa.len() implies sa[j] == sb[j] by {
        assert(crate::decoder::attention::is_score(math.zero, q, keys[j], scale, sa[j]));
        assert(crate::decoder::attention::is_score(math.zero, q, keys[j], scale, sb[j]));
        lemma_score(math.zero, q, keys[j], scale, sa[j], sb[j]);
    }
    assert(sa =~= sb);
    lemma_softmax(math, sa, wa, wb);
    assert forall|j: int| 0 <= j < za.len() implies za[j] == zb[j] by {
        assert(crate::decoder::attention::tells_zero(math.to_bits, wa[j], za[j]));
        assert(crate::decoder::attention::tells_zero(math.to_bits, wa[j], zb[j]));
    }
    assert(za =~= zb);
    let places = crate::decoder::attention::unset(za);
    assert forall|d: int| 0 <= d < a.len() implies a[d] == b[d] by {
        assert(crate::decoder::attention::is_weighted_sum(math.zero, wa, values, places, d, a[d]));
        assert(crate::decoder::attention::is_weighted_sum(math.zero, wa, values, places, d, b[d]));
        lemma_weighted_sum(math.zero, wa, values, places, d, a[d], b[d]);
    }
    assert(a =~= b);
}

/// A query never sees later positions: under the causal mask, row `i` of the attention to two
/// caches that agree on the positions up to that of query `i` is the same, where every operation
/// on numbers gives one result.
pub proof fn law_masked_rows_are_equal<
    T: Add<Output = T> + Sub<Output = T> + Mul<Output = T>,
    M: Fn(T, T) -> T,
    E: Fn(T) -> T,
    R: Fn(T) -> T,
    Z: Fn(T) -> u32,
    V: Fn(u32) -> T,
>(
    math: AttnMath<T, M, E, R, Z, V>,
    q: Seq<T>,
    kv1: LayerKVCache<T>,
    kv2: LayerKVCache<T>,
    cfg: CachedSdpaConfig,
    scale: T,
    out1: Seq<T>,
    out2: Seq<T>,
    i: int,
)
    requires
        single_valued(math),
        crate::decoder::attention::is_cached_attention(math, q, kv1, cfg, scale, out1),
        crate::decoder::attention::is_cached_attention(math, q, kv2, cfg, scale, out2),
        cfg.causal_mask,
        0 <= i < cfg.q_len,
        forall|h: int, s: int|
            0 <= h < cfg.n_head && 0 <= s <= cfg.past_len + i ==> #[trigger] kv1.key(h, s)
                == kv2.key(h, s),
        forall|h: int, s: int|
            0 <= h < cfg.n_head && 0 <= s <= cfg.past_len + i ==> #[trigger] kv1.value(h, s)
                == kv2.value(h, s),
    ensures
        crate::rows::row(out1, cfg.n_head * cfg.head_dim, i) == crate::rows::row(
            out2,
            cfg.n_head * cfg.head_dim,
            i,
        ),
{
    let n = cfg.n_head as int;
    let w = cfg.head_dim as int;
    let whole1 = crate::rows::row(out1, n * w, i);
    let whole2 = crate::rows::row(out2, n * w, i);
    assert((cfg.q_len * n) * w == cfg.q_len * (n * w)) by (nonlinear_arith);
    assert(0 <= n * w) by (nonlinear_arith)
        requires
            0 <= n,
            0 <= w,
    ;
    crate::rows::lemma_row_fits(i, cfg.q_len as int, n * w);
    assert forall|c: int| 0 <= c < n * w implies whole1[c] == whole2[c] by {
        assert(w > 0) by (nonlinear_arith)
            requires
                0 <= c < n * w,
                0 <= n,
                0 <= w,
        ;
        let h = c / w;
        let d = c % w;
        assert(0 <= h < n && 0 <= d < w && c == h * w + d) by (nonlinear_arith)
            requires
                0 <= c < n * w,
                w > 0,
                h == c / w,
                d == c % w,
        ;
        let len = cfg.valid_len(i);
        let row1 = crate::decoder::kv_cache::state_row(out1, w, i, n, h);
        let row2 = crate::decoder::kv_cache::state_row(out2, w, i, n, h);
        let own = crate::decoder::kv_cache::head_row(q, w, h, cfg.q_len as int, i);
        assert(crate::decoder::attention::cached_keys(kv1, h, len)
            =~= crate::decoder::attention::cached_keys(kv2, h, len));
        assert(crate::decoder::attention::cached_values(kv1, h, len)
            =~= crate::decoder::attention::cached_values(kv2, h, len));
        law_attention_is_determined(
            math,
            own,
            crate::decoder::attention::cached_keys(kv1, h, len),
            crate::decoder::attention::cached_values(kv1, h, len),
            scale,
            row1,
            row2,
        );
        crate::rows::lemma_place_fits(i, cfg.q_len as int, n, h);
        crate::rows::lemma_row_fits(crate::rows::place(i, n, h), cfg.q_len * n, w);
        assert(row1[d] == row2[d]);
        assert(i * (n * w) + c == (i * n + h) * w + d) by (nonlinear_arith)
            requires
                c == h * w + d,
        ;
    }
    assert(whole1 =~= whole2);
}

} // verus!
