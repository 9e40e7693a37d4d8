//! What attention is worth: a mean of values, weighted by how well keys match a query.

use crate::decoder::attention::{self, AttnMath};
use crate::decoder::forward::{CrossTrace, Engine, ForwardCtx, Op, SelfTrace};
use crate::decoder::kv_cache::LayerKVCache;
use crate::exact;
use core::ops::{Add, Mul, Sub};
use vstd::prelude::*;

verus! {

/// `v` carries the operators and functions over to those of the real numbers; `exp` is the
/// exponential function there.
pub open spec fn is_exact<
    T: Add<Output = T> + Sub<Output = T> + Mul<Output = T>,
    M: Fn(T, T) -> T,
    E: Fn(T) -> T,
    R: Fn(T) -> T,
    Z: Fn(T) -> u32,
    V: Fn(u32) -> T,
>(
    math: AttnMath<T, M, E, R, Z, V>,
    v: spec_fn(T) -> real,
    exp: spec_fn(real) -> real,
) -> bool {
    &&& exact::adds(v)
    &&& exact::subtracts(v)
    &&& exact::multiplies(v)
    &&& v(math.zero) == 0real
    &&& forall|a: T, r: T| #[trigger] call_ensures(math.exp, (a,), r) ==> v(r) == exp(v(a))
    &&& forall|a: T, r: T| #[trigger]
        call_ensures(math.recip, (a,), r) && v(a) != 0real ==> v(a) * v(r) == 1real
    &&& forall|a: T, b: u32| #[trigger]
        call_ensures(math.to_bits, (a,), b) ==> (crate::bits::above(b, 0) <==> v(a) > 0real) && (
        crate::bits::is_zero(b) <==> v(a) == 0real)
    &&& forall|x: real| #[trigger] exp(x) > 0real
    &&& forall|x: real, y: real| #[trigger] exp(x + y) == exp(x) * exp(y)
}

/// How well key `j` matches the query.
pub open spec fn match_of(
    width: nat,
    scale: real,
    query: spec_fn(int) -> real,
    key: spec_fn(int, int) -> real,
    j: int,
) -> real {
    exact::total(width, |d: int| query(d) * key(j, d)) * scale
}

/// `out` is the mean of `n` values with the weights `w`. The weights are positive and add up to one,
/// and any two of them relate as the exponentials of how well their keys match the query.
pub open spec fn is_mean_by(
    exp: spec_fn(real) -> real,
    n: nat,
    width: nat,
    scale: real,
    query: spec_fn(int) -> real,
    key: spec_fn(int, int) -> real,
    value: spec_fn(int, int) -> real,
    out: spec_fn(int) -> real,
    w: Seq<real>,
) -> bool {
    &&& w.len() == n
    &&& forall|j: int| 0 <= j < n ==> #[trigger] w[j] > 0real
    &&& exact::total(n, |j: int| w[j]) == 1real
    &&& forall|j: int, k: int|
        #![trigger w[j], w[k]]
        0 <= j < n && 0 <= k < n ==> w[j] * exp(match_of(width, scale, query, key, k)) == w[k]
            * exp(match_of(width, scale, query, key, j))
    &&& forall|d: int|
        0 <= d < width ==> #[trigger] out(d) == exact::total(n, |j: int| w[j] * value(j, d))
}

/// `out` is a mean of `n` values.
pub open spec fn is_mean(
    exp: spec_fn(real) -> real,
    n: nat,
    width: nat,
    scale: real,
    query: spec_fn(int) -> real,
    key: spec_fn(int, int) -> real,
    value: spec_fn(int, int) -> real,
    out: spec_fn(int) -> real,
) -> bool {
    exists|w: Seq<real>| #[trigger] is_mean_by(exp, n, width, scale, query, key, value, out, w)
}

/// Where no flag is set, every place is unset.
proof fn lemma_all_unset(flags: Seq<bool>)
    requires
        forall|j: int| 0 <= j < flags.len() ==> !#[trigger] flags[j],
    ensures
        attention::unset(flags) == Seq::new(flags.len(), |j: int| j),
    decreases flags.len(),
{
    if flags.len() > 0 {
        let shorter = flags.drop_last();
        assert forall|j: int| 0 <= j < shorter.len() implies !#[trigger] shorter[j] by {
            assert(!flags[j]);
        }
        lemma_all_unset(shorter);
        assert(!flags[flags.len() - 1]);
    }
    assert(attention::unset(flags) =~= Seq::new(flags.len(), |j: int| j));
}

/// The value of a score.
proof fn lemma_score_value<T: Add<Output = T> + Mul<Output = T>>(
    v: spec_fn(T) -> real,
    zero: T,
    q: Seq<T>,
    key: Seq<T>,
    scale: T,
    s: T,
)
    requires
        exact::adds(v),
        exact::multiplies(v),
        v(zero) == 0real,
        attention::is_score(zero, q, key, scale, s),
    ensures
        v(s) == exact::total(q.len(), |d: int| v(q[d]) * v(key[d])) * v(scale),
{
    let p = choose|p: T| #[trigger]
        crate::num::dot_of(zero, q, key, p) && crate::num::is_product(p, scale, s);
    exact::law_dot_is_sum_of_products(v, zero, q, key, p);
}

/// The values of a softmax: positive, with the sum one, and related as the exponentials.
proof fn lemma_softmax_values<
    T: Add<Output = T> + Sub<Output = T> + Mul<Output = T>,
    M: Fn(T, T) -> T,
    E: Fn(T) -> T,
    R: Fn(T) -> T,
    Z: Fn(T) -> u32,
    V: Fn(u32) -> T,
>(
    math: AttnMath<T, M, E, R, Z, V>,
    v: spec_fn(T) -> real,
    exp: spec_fn(real) -> real,
    x: Seq<T>,
    w: Seq<T>,
)
    requires
        is_exact(math, v, exp),
        attention::is_softmax(math, x, w),
        x.len() > 0,
    ensures
        w.len() == x.len(),
        forall|j: int| 0 <= j < w.len() ==> v(#[trigger] w[j]) > 0real,
        exact::total(w.len(), |j: int| v(w[j])) == 1real,
        forall|j: int, k: int|
            #![trigger w[j], w[k]]
            0 <= j < w.len() && 0 <= k < w.len() ==> v(w[j]) * exp(v(x[k])) == v(w[k]) * exp(
                v(x[j]),
            ),
{
    let (top, e, s, inverse) = choose|top: T, e: Seq<T>, s: T, inverse: Option<T>| #[trigger]
        attention::softmax_by(math, x, top, e, s, inverse, w);
    let f = |j: int| v(e[j]);
    assert forall|j: int| 0 <= j < e.len() implies #[trigger] f(j) > 0real && f(j) * exp(v(top))
        == exp(v(x[j])) by {
        assert(crate::probability::is_exp_of_difference(math.exp, x[j], top, e[j]));
        let d = choose|d: T| #[trigger]
            crate::num::is_difference(x[j], top, d) && call_ensures(math.exp, (d,), e[j]);
        assert(v(d) == v(x[j]) - v(top));
        assert(exp(v(d)) > 0real);
        assert(v(d) + v(top) == v(x[j]));
        assert(exp(v(d) + v(top)) == exp(v(d)) * exp(v(top)));
    }
    exact::lemma_sum_value(v, math.zero, e, s);
    exact::lemma_total_positive(e.len(), f);
    assert(v(s) > 0real);
    let b = choose|b: u32| #[trigger]
        call_ensures(math.to_bits, (s,), b) && match inverse {
            Some(i) => crate::bits::above(b, crate::bits::ZERO_BITS) && call_ensures(
                math.recip,
                (s,),
                i,
            ),
            None => !crate::bits::above(b, crate::bits::ZERO_BITS),
        };
    assert(inverse is Some);
    let i = inverse->0;
    let r = v(i);
    let sum = v(s);
    assert(sum * r == 1real);
    assert(r > 0real) by (nonlinear_arith)
        requires
            sum > 0real,
            sum * r == 1real,
    ;
    assert forall|j: int| 0 <= j < w.len() implies v(#[trigger] w[j]) == f(j) * r && v(w[j])
        > 0real by {
        assert(crate::num::is_product(e[j], i, w[j]));
        let y = f(j);
        assert(f(j) > 0real);
        assert(y * r > 0real) by (nonlinear_arith)
            requires
                y > 0real,
                r > 0real,
        ;
    }
    let g = |j: int| v(w[j]);
    let h = |j: int| f(j) * r;
    assert forall|j: int| 0 <= j < w.len() implies #[trigger] g(j) == h(j) by {
        assert(v(w[j]) == f(j) * r);
    }
    exact::lemma_total_same(w.len(), g, h);
    exact::lemma_total_scaled(w.len(), f, r);
    let all = exact::total(w.len(), f);
    assert(all == sum);
    assert forall|j: int, k: int|
        #![trigger w[j], w[k]]
        0 <= j < w.len() && 0 <= k < w.len() implies v(w[j]) * exp(v(x[k])) == v(w[k]) * exp(
        v(x[j]),
    ) by {
        assert(v(w[j]) == f(j) * r && v(w[k]) == f(k) * r);
        assert(f(j) * exp(v(top)) == exp(v(x[j])));
        assert(f(k) * exp(v(top)) == exp(v(x[k])));
        let a = f(j);
        let c = f(k);
        let t = exp(v(top));
        assert((a * r) * (c * t) == (c * r) * (a * t)) by (nonlinear_arith);
    }
}

/// Attention is a weighted mean of the values: each weight is positive, they add up to one, and two
/// of them relate as the exponentials of the scaled dot products of their keys with the query. The
/// functions `query`, `key`, `value` and `mean` give the values of the elements.
pub proof fn law_attention_is_weighted_mean<
    T: Add<Output = T> + Sub<Output = T> + Mul<Output = T>,
    M: Fn(T, T) -> T,
    E: Fn(T) -> T,
    R: Fn(T) -> T,
    Z: Fn(T) -> u32,
    V: Fn(u32) -> T,
>(
    math: AttnMath<T, M, E, R, Z, V>,
    v: spec_fn(T) -> real,
    exp: spec_fn(real) -> real,
    q: Seq<T>,
    keys: Seq<Seq<T>>,
    values: Seq<Seq<T>>,
    scale: T,
    out: Seq<T>,
    query: spec_fn(int) -> real,
    key: spec_fn(int, int) -> real,
    value: spec_fn(int, int) -> real,
    mean: spec_fn(int) -> real,
)
    requires
        is_exact(math, v, exp),
        attention::is_attention(math, q, keys, values, scale, out),
        keys.len() == values.len(),
        keys.len() > 0,
        forall|d: int| 0 <= d < q.len() ==> #[trigger] query(d) == v(q[d]),
        forall|j: int, d: int|
            0 <= j < keys.len() && 0 <= d < q.len() ==> #[trigger] key(j, d) == v(keys[j][d]),
        forall|j: int, d: int|
            0 <= j < keys.len() && 0 <= d < q.len() ==> #[trigger] value(j, d) == v(values[j][d]),
        forall|d: int| 0 <= d < q.len() ==> #[trigger] mean(d) == v(out[d]),
    ensures
        is_mean(exp, keys.len(), q.len(), v(scale), query, key, value, mean),
{
    let (s, w, zeros) = choose|s: Seq<T>, w: Seq<T>, zeros: Seq<bool>| #[trigger]
        attention::attended_by(math, q, keys, values, scale, s, w, zeros, out);
    let n = keys.len();
    lemma_softmax_values(math, v, exp, s, w);
    assert forall|j: int| 0 <= j < n implies v(#[trigger] s[j]) == match_of(
        q.len(),
        v(scale),
        query,
        key,
        j,
    ) by {
        assert(attention::is_score(math.zero, q, keys[j], scale, s[j]));
        lemma_score_value(v, math.zero, q, keys[j], scale, s[j]);
        let f = |d: int| v(q[d]) * v(keys[j][d]);
        let g = |d: int| query(d) * key(j, d);
        assert forall|d: int| 0 <= d < q.len() implies #[trigger] f(d) == g(d) by {
            assert(query(d) == v(q[d]) && key(j, d) == v(keys[j][d]));
        }
        exact::lemma_total_same(q.len(), f, g);
    }
    assert forall|j: int| 0 <= j < zeros.len() implies !#[trigger] zeros[j] by {
        assert(attention::tells_zero(math.to_bits, w[j], zeros[j]));
        assert(v(w[j]) > 0real);
    }
    lemma_all_unset(zeros);
    let places = attention::unset(zeros);
    let ws = Seq::new(n, |j: int| v(w[j]));
    let a = |j: int| v(w[j]);
    let b = |j: int| ws[j];
    assert forall|j: int| 0 <= j < n implies #[trigger] a(j) == b(j) by {}
    exact::lemma_total_same(n, a, b);
    assert forall|j: int, k: int|
        #![trigger ws[j], ws[k]]
        0 <= j < n && 0 <= k < n implies ws[j] * exp(match_of(q.len(), v(scale), query, key, k))
        == ws[k] * exp(match_of(q.len(), v(scale), query, key, j)) by {
        assert(v(w[j]) * exp(v(s[k])) == v(w[k]) * exp(v(s[j])));
    }
    assert forall|d: int| 0 <= d < q.len() implies #[trigger] mean(d) == exact::total(
        n,
        |j: int| ws[j] * value(j, d),
    ) by {
        assert(attention::is_weighted_sum(math.zero, w, values, places, d, out[d]));
        let t = choose|t: Seq<T>| #[trigger]
            attention::are_weighted(w, values, places, d, t) && crate::num::sum_of(
                math.zero,
                t,
                out[d],
            );
        exact::lemma_sum_value(v, math.zero, t, out[d]);
        let f = |j: int| v(t[j]);
        let g = |j: int| ws[j] * value(j, d);
        assert forall|j: int| 0 <= j < n implies #[trigger] f(j) == g(j) by {
            assert(places[j] == j);
            assert(crate::num::is_product(w[places[j]], values[places[j]][d], t[j]));
            assert(value(j, d) == v(values[j][d]));
        }
        exact::lemma_total_same(n, f, g);
    }
    assert forall|j: int| 0 <= j < n implies #[trigger] ws[j] > 0real by {
        assert(v(w[j]) > 0real);
    }
    assert(is_mean_by(exp, n, q.len(), v(scale), query, key, value, mean, ws));
}

/// The mean of equal values is that value, whatever the query and the keys.
pub proof fn law_mean_of_equal_values(
    exp: spec_fn(real) -> real,
    n: nat,
    width: nat,
    scale: real,
    query: spec_fn(int) -> real,
    key: spec_fn(int, int) -> real,
    value: spec_fn(int, int) -> real,
    out: spec_fn(int) -> real,
    d: int,
    c: real,
)
    requires
        is_mean(exp, n, width, scale, query, key, value, out),
        0 <= d < width,
        forall|j: int| 0 <= j < n ==> #[trigger] value(j, d) == c,
    ensures
        out(d) == c,
{
    let w = choose|w: Seq<real>| #[trigger]
        is_mean_by(exp, n, width, scale, query, key, value, out, w);
    let a = |j: int| w[j];
    let f = |j: int| w[j] * value(j, d);
    let g = |j: int| a(j) * c;
    assert forall|j: int| 0 <= j < n implies #[trigger] f(j) == g(j) by {
        assert(value(j, d) == c);
    }
    exact::lemma_total_same(n, f, g);
    exact::lemma_total_scaled(n, a, c);
    assert(1real * c == c) by (nonlinear_arith);
    assert(out(d) == exact::total(n, f));
}

/// An element of a row.
proof fn lemma_element<T>(data: Seq<T>, width: int, rows: int, r: int, d: int)
    requires
        0 <= r < rows,
        0 <= d < width,
        rows * width <= data.len(),
    ensures
        crate::rows::row(data, width, r).len() == width,
        crate::rows::row(data, width, r)[d] == data[r * width + d],
{
    crate::rows::lemma_row_fits(r, rows, width);
}

/// Cross-attention takes the mean of the encoder's values: for each row `i` and head `h`, the output
/// is the mean of the head's elements of the context's value table over all encoder positions, with
/// weights that rest on the query and on the context's key table.
pub proof fn law_cross_attention_means_values<
    T: Add<Output = T> + Sub<Output = T> + Mul<Output = T>,
    M: Fn(T, T) -> T,
    E: Fn(T) -> T,
    R: Fn(T) -> T,
    Z: Fn(T) -> u32,
    V: Fn(u32) -> T,
    K: Fn(Op<T>) -> Result<Vec<T>, String>,
>(
    ctx: ForwardCtx<T>,
    engine: Engine<T, M, E, R, Z, V, K>,
    v: spec_fn(T) -> real,
    exp: spec_fn(real) -> real,
    layer: nat,
    q_len: usize,
    x: Seq<T>,
    y: Seq<T>,
    t: CrossTrace<T>,
    i: int,
    h: int,
)
    requires
        is_exact(engine.attn, v, exp),
        ctx.wf(),
        ctx.enc_len > 0,
        layer < ctx.n_layer,
        crate::decoder::forward::cross_attention_by(ctx, engine, layer, q_len, x, y, t),
        t.q.len() == (q_len * ctx.n_head) * ctx.head_dim,
        0 <= i < q_len,
        0 <= h < ctx.n_head,
    ensures
        ({
            let heads = ctx.n_head as int;
            let width = ctx.head_dim as int;
            let n = ctx.enc_len as int;
            let keys = ctx.cross_k@[layer as int]@;
            let values = ctx.cross_v@[layer as int]@;
            is_mean(
                exp,
                ctx.enc_len as nat,
                ctx.head_dim as nat,
                v(ctx.scale),
                |d: int| v(t.q[(i * heads + h) * width + d]),
                |j: int, d: int| v(keys[(h * n + j) * width + d]),
                |j: int, d: int| v(values[(h * n + j) * width + d]),
                |d: int| v(t.attn[(i * heads + h) * width + d]),
            )
        }),
{
    let heads = ctx.n_head as int;
    let width = ctx.head_dim as int;
    let n = ctx.enc_len as int;
    let keys = ctx.cross_k@[layer as int]@;
    let values = ctx.cross_v@[layer as int]@;
    let query = |d: int| v(t.q[(i * heads + h) * width + d]);
    let key = |j: int, d: int| v(keys[(h * n + j) * width + d]);
    let value = |j: int, d: int| v(values[(h * n + j) * width + d]);
    let mean = |d: int| v(t.attn[(i * heads + h) * width + d]);
    let own = crate::decoder::kv_cache::head_row(t.q_heads, width, h, q_len as int, i);
    let got = crate::decoder::kv_cache::state_row(t.attn, width, i, heads, h);
    assert(own == crate::decoder::kv_cache::state_row(t.q, width, i, heads, h));
    assert(attention::is_attention(
        engine.attn,
        own,
        attention::flat_rows(keys, width, h, n),
        attention::flat_rows(values, width, h, n),
        ctx.scale,
        got,
    ));
    crate::rows::lemma_place_fits(i, q_len as int, heads, h);
    crate::rows::lemma_row_fits(crate::rows::place(i, heads, h), q_len * heads, width);
    assert forall|d: int| 0 <= d < width implies #[trigger] query(d) == v(own[d]) && mean(d) == v(
        got[d],
    ) by {
        lemma_element(t.q, width, q_len * heads, i * heads + h, d);
        lemma_element(t.attn, width, q_len * heads, i * heads + h, d);
    }
    assert forall|d: int| 0 <= d < width implies #[trigger] mean(d) == v(got[d]) by {
        assert(query(d) == v(own[d]));
    }
    assert forall|j: int, d: int| 0 <= j < n && 0 <= d < width implies #[trigger] key(j, d) == v(
        attention::flat_rows(keys, width, h, n)[j][d],
    ) by {
        crate::rows::lemma_place_fits(h, heads, n, j);
        lemma_element(keys, width, heads * n, h * n + j, d);
    }
    assert forall|j: int, d: int| 0 <= j < n && 0 <= d < width implies #[trigger] value(j, d) == v(
        attention::flat_rows(values, width, h, n)[j][d],
    ) by {
        crate::rows::lemma_place_fits(h, heads, n, j);
        lemma_element(values, width, heads * n, h * n + j, d);
    }
    law_attention_is_weighted_mean(
        engine.attn,
        v,
        exp,
        own,
        attention::flat_rows(keys, width, h, n),
        attention::flat_rows(values, width, h, n),
        ctx.scale,
        got,
        query,
        key,
        value,
        mean,
    );
}

/// Self-attention takes the mean of cached values: for each row `i` and head `h`, the output is the
/// mean of the head's values over the positions up to the row's own under the causal mask, over all
/// filled ones without it, with weights that rest on the query and on the cached keys. At the new
/// positions the cache holds the new keys and values.
pub proof fn law_self_attention_means_values<
    T: Add<Output = T> + Sub<Output = T> + Mul<Output = T>,
    M: Fn(T, T) -> T,
    E: Fn(T) -> T,
    R: Fn(T) -> T,
    Z: Fn(T) -> u32,
    V: Fn(u32) -> T,
    K: Fn(Op<T>) -> Result<Vec<T>, String>,
>(
    ctx: ForwardCtx<T>,
    engine: Engine<T, M, E, R, Z, V, K>,
    v: spec_fn(T) -> real,
    exp: spec_fn(real) -> real,
    layer: nat,
    q_len: usize,
    causal_mask: bool,
    x: Seq<T>,
    kv: LayerKVCache<T>,
    kv2: LayerKVCache<T>,
    y: Seq<T>,
    t: SelfTrace<T>,
    i: int,
    h: int,
)
    requires
        is_exact(engine.attn, v, exp),
        ctx.wf(),
        crate::decoder::forward::cache_at(kv, ctx, kv.seq_len as int, kv.capacity as int),
        crate::decoder::forward::self_attention_by(
            ctx,
            engine,
            layer,
            q_len,
            causal_mask,
            x,
            kv,
            kv2,
            y,
            t,
        ),
        t.q.len() == (q_len * ctx.n_head) * ctx.head_dim,
        t.k.len() == (q_len * ctx.n_head) * ctx.head_dim,
        t.v.len() == (q_len * ctx.n_head) * ctx.head_dim,
        0 <= i < q_len,
        0 <= h < ctx.n_head,
    ensures
        ({
            let heads = ctx.n_head as int;
            let width = ctx.head_dim as int;
            let n = kv.capacity as int;
            is_mean(
                exp,
                (if causal_mask {
                    kv.seq_len + i + 1
                } else {
                    kv.seq_len + q_len
                }) as nat,
                ctx.head_dim as nat,
                v(ctx.scale),
                |d: int| v(t.q[(i * heads + h) * width + d]),
                |j: int, d: int| v(kv2.k@[(h * n + j) * width + d]),
                |j: int, d: int| v(kv2.v@[(h * n + j) * width + d]),
                |d: int| v(t.attn[(i * heads + h) * width + d]),
            )
        }),
        forall|j: int, d: int|
            0 <= j < kv.seq_len && 0 <= d < ctx.head_dim ==> #[trigger] kv2.k@[(h * kv.capacity + j)
                * ctx.head_dim + d] == kv.k@[(h * kv.capacity + j) * ctx.head_dim + d],
        forall|j: int, d: int|
            0 <= j < kv.seq_len && 0 <= d < ctx.head_dim ==> #[trigger] kv2.v@[(h * kv.capacity + j)
                * ctx.head_dim + d] == kv.v@[(h * kv.capacity + j) * ctx.head_dim + d],
        forall|j: int, d: int|
            0 <= j < q_len && 0 <= d < ctx.head_dim ==> kv2.k@[(h * kv.capacity + (kv.seq_len + j))
                * ctx.head_dim + d] == #[trigger] t.k[(j * ctx.n_head + h) * ctx.head_dim + d],
        forall|j: int, d: int|
            0 <= j < q_len && 0 <= d < ctx.head_dim ==> kv2.v@[(h * kv.capacity + (kv.seq_len + j))
                * ctx.head_dim + d] == #[trigger] t.v[(j * ctx.n_head + h) * ctx.head_dim + d],
{
    let heads = ctx.n_head as int;
    let width = ctx.head_dim as int;
    let cap = kv.capacity as int;
    let n = if causal_mask {
        kv.seq_len + i + 1
    } else {
        kv.seq_len + q_len
    };
    let cfg = attention::CachedSdpaConfig {
        n_head: ctx.n_head,
        q_len,
        kv_len: kv2.seq_len,
        head_dim: ctx.head_dim,
        past_len: kv.seq_len,
        causal_mask,
    };
    assert(n == cfg.valid_len(i));
    assert(kv2.seq_len == kv.seq_len + q_len);
    let query = |d: int| v(t.q[(i * heads + h) * width + d]);
    let key = |j: int, d: int| v(kv2.k@[(h * cap + j) * width + d]);
    let value = |j: int, d: int| v(kv2.v@[(h * cap + j) * width + d]);
    let mean = |d: int| v(t.attn[(i * heads + h) * width + d]);
    let own = crate::decoder::kv_cache::head_row(t.q_heads, width, h, q_len as int, i);
    let got = crate::decoder::kv_cache::state_row(t.attn, width, i, heads, h);
    assert(own == crate::decoder::kv_cache::state_row(t.q, width, i, heads, h));
    assert(attention::is_attention(
        engine.attn,
        own,
        attention::cached_keys(kv2, h, n),
        attention::cached_values(kv2, h, n),
        ctx.scale,
        got,
    ));
    crate::rows::lemma_place_fits(i, q_len as int, heads, h);
    crate::rows::lemma_row_fits(crate::rows::place(i, heads, h), q_len * heads, width);
    assert forall|d: int| 0 <= d < width implies #[trigger] query(d) == v(own[d]) by {
        lemma_element(t.q, width, q_len * heads, i * heads + h, d);
    }
    assert forall|d: int| 0 <= d < width implies #[trigger] mean(d) == v(got[d]) by {
        lemma_element(t.attn, width, q_len * heads, i * heads + h, d);
    }
    assert forall|j: int, d: int| 0 <= j < n && 0 <= d < width implies #[trigger] key(j, d) == v(
        attention::cached_keys(kv2, h, n)[j][d],
    ) by {
        crate::rows::lemma_place_fits(h, heads, cap, j);
        lemma_element(kv2.k@, width, heads * cap, h * cap + j, d);
    }
    assert forall|j: int, d: int| 0 <= j < n && 0 <= d < width implies #[trigger] value(j, d) == v(
        attention::cached_values(kv2, h, n)[j][d],
    ) by {
        crate::rows::lemma_place_fits(h, heads, cap, j);
        lemma_element(kv2.v@, width, heads * cap, h * cap + j, d);
    }
    law_attention_is_weighted_mean(
        engine.attn,
        v,
        exp,
        own,
        attention::cached_keys(kv2, h, n),
        attention::cached_values(kv2, h, n),
        ctx.scale,
        got,
        query,
        key,
        value,
        mean,
    );
    crate::decoder::kv_cache::law_append_fills_in(kv, t.k, t.v, q_len as int, kv2, h);
}

} // verus!
