//! What a forward pass does with tokens, weights and the encoder's output.

use crate::decoder::forward::{
    self, CrossTrace, Engine, FeedTrace, ForwardCtx, Op, OpView, SelfTrace,
};
use crate::decoder::kv_cache::LayerKVCache;
use crate::decoder::sampler::Choice;
use crate::decoder::{attention, mean_laws, Decoded, ScaleMath, Table};
use crate::exact;
use crate::model::{Hparams, VocabEntry};
use crate::types::TranscribeOptions;
use core::ops::{Add, Mul, Sub};
use vstd::prelude::*;

verus! {

/// The name that a part of layer `l` has in a model file.
pub open spec fn layer_part(l: nat, part: Seq<char>) -> Seq<char> {
    "decoder.blocks."@ + crate::text::decimal_nat(l) + part
}

/// The kernels gave `out` for the layer norm of `x` with the weights of layer `l`.
pub open spec fn normed<T, K: Fn(Op<T>) -> Result<Vec<T>, String>>(
    kernel: K,
    l: nat,
    x: Seq<T>,
    weight: Seq<char>,
    bias: Seq<char>,
    out: Seq<T>,
) -> bool {
    forward::gives(
        kernel,
        OpView::LayerNorm(x, layer_part(l, weight), layer_part(l, bias), 0x3727_C5ACu32),
        out,
    )
}

/// The kernels gave `out` for a linear layer on `rows` rows of `x` with the weights of layer `l`.
pub open spec fn projected<T, K: Fn(Op<T>) -> Result<Vec<T>, String>>(
    kernel: K,
    l: nat,
    x: Seq<T>,
    rows: int,
    weight: Seq<char>,
    bias: Option<Seq<char>>,
    width: Option<int>,
    out: Seq<T>,
) -> bool {
    forward::gives(
        kernel,
        OpView::Linear(
            x,
            rows,
            layer_part(l, weight),
            match bias {
                Some(b) => Some(layer_part(l, b)),
                None => None,
            },
            width,
        ),
        out,
    )
}

/// `y` adds `out` to `x`.
pub open spec fn is_residual<T: Add<Output = T>>(x: Seq<T>, out: Seq<T>, y: Seq<T>) -> bool {
    &&& y.len() == x.len()
    &&& forall|i: int| 0 <= i < y.len() ==> crate::num::is_sum(x[i], out[i], #[trigger] y[i])
}

/// A layer runs three parts, one on what the other left, each with weights of its own layer and part
/// and each added to what it was given: self-attention between normed rows, attention of normed rows
/// to the encoder, and two linear layers on normed rows with an activation between them.
pub proof fn law_layer_runs_three_parts<
    T: Add<Output = T> + Sub<Output = T> + Mul<Output = T>,
    M: Fn(T, T) -> T,
    E: Fn(T) -> T,
    R: Fn(T) -> T,
    Z: Fn(T) -> u32,
    V: Fn(u32) -> T,
    K: Fn(Op<T>) -> Result<Vec<T>, String>,
>(
    ctx: ForwardCtx<T>,
    engine: Engine<T, M, E, R, Z, V, K>,
    l: nat,
    q_len: usize,
    causal_mask: bool,
    x: Seq<T>,
    kv: LayerKVCache<T>,
    kv2: LayerKVCache<T>,
    y: Seq<T>,
)
    requires
        forward::is_layer(ctx, engine, l, q_len, causal_mask, x, kv, kv2, y),
    ensures
        exists|a: Seq<T>, b: Seq<T>, s: SelfTrace<T>, c: CrossTrace<T>, f: FeedTrace<T>|
            #![trigger is_residual(x, s.out, a), is_residual(a, c.out, b), is_residual(b, f.out, y)]
            {
                let rows = q_len as int;
                let n = ctx.n_state as int;
                &&& normed(engine.kernel, l, x, ".attn_ln.weight"@, ".attn_ln.bias"@, s.normed)
                &&& projected(
                    engine.kernel,
                    l,
                    s.normed,
                    rows,
                    ".attn.query.weight"@,
                    Some(".attn.query.bias"@),
                    Some(n),
                    s.q,
                )
                &&& projected(
                    engine.kernel,
                    l,
                    s.normed,
                    rows,
                    ".attn.key.weight"@,
                    None,
                    Some(n),
                    s.k,
                )
                &&& projected(
                    engine.kernel,
                    l,
                    s.normed,
                    rows,
                    ".attn.value.weight"@,
                    Some(".attn.value.bias"@),
                    Some(n),
                    s.v,
                )
                &&& forward::self_attention_by(
                    ctx,
                    engine,
                    l,
                    q_len,
                    causal_mask,
                    x,
                    kv,
                    kv2,
                    a,
                    s,
                )
                &&& projected(
                    engine.kernel,
                    l,
                    s.attn,
                    rows,
                    ".attn.out.weight"@,
                    Some(".attn.out.bias"@),
                    Some(n),
                    s.out,
                )
                &&& is_residual(x, s.out, a)
                &&& normed(
                    engine.kernel,
                    l,
                    a,
                    ".cross_attn_ln.weight"@,
                    ".cross_attn_ln.bias"@,
                    c.normed,
                )
                &&& projected(
                    engine.kernel,
                    l,
                    c.normed,
                    rows,
                    ".cross_attn.query.weight"@,
                    Some(".cross_attn.query.bias"@),
                    Some(n),
                    c.q,
                )
                &&& forward::cross_attention_by(ctx, engine, l, q_len, a, b, c)
                &&& projected(
                    engine.kernel,
                    l,
                    c.attn,
                    rows,
                    ".cross_attn.out.weight"@,
                    Some(".cross_attn.out.bias"@),
                    Some(n),
                    c.out,
                )
                &&& is_residual(a, c.out, b)
                &&& normed(engine.kernel, l, b, ".mlp_ln.weight"@, ".mlp_ln.bias"@, f.normed)
                &&& projected(
                    engine.kernel,
                    l,
                    f.normed,
                    rows,
                    ".mlp.0.weight"@,
                    Some(".mlp.0.bias"@),
                    None,
                    f.hidden,
                )
                &&& forward::gives(engine.kernel, OpView::Gelu(f.hidden), f.active)
                &&& projected(
                    engine.kernel,
                    l,
                    f.active,
                    rows,
                    ".mlp.2.weight"@,
                    Some(".mlp.2.bias"@),
                    Some(n),
                    f.out,
                )
                &&& is_residual(b, f.out, y)
            },
{
    let (a, b) = choose|a: Seq<T>, b: Seq<T>| #[trigger]
        forward::is_self_attention(ctx, engine, l, q_len, causal_mask, x, kv, kv2, a) && #[trigger]
        forward::is_cross_attention(ctx, engine, l, q_len, a, b) && forward::is_feed_forward(
            ctx,
            engine,
            l,
            q_len,
            b,
            y,
        );
    let s = choose|s: SelfTrace<T>| #[trigger]
        forward::self_attention_by(ctx, engine, l, q_len, causal_mask, x, kv, kv2, a, s);
    let c = choose|c: CrossTrace<T>| #[trigger]
        forward::cross_attention_by(ctx, engine, l, q_len, a, b, c);
    let f = choose|f: FeedTrace<T>| #[trigger]
        forward::feed_forward_by(ctx, engine, l, q_len, b, y, f);
    assert(is_residual(x, s.out, a));
    assert(is_residual(a, c.out, b));
    assert(is_residual(b, f.out, y));
}

/// The output of a linear layer with a width has the size that this asks for.
proof fn lemma_projected_size<T, K: Fn(Op<T>) -> Result<Vec<T>, String>>(
    kernel: K,
    op: OpView<T>,
    rows: int,
    width: int,
    out: Seq<T>,
)
    requires
        forward::sound(kernel),
        forward::gives(kernel, op, out),
        op matches OpView::Linear(_, r, _, _, Some(w)) && r == rows && w == width,
    ensures
        out.len() == rows * width,
{
    let (o, r) = choose|o: Op<T>, r: Result<Vec<T>, String>| #[trigger]
        call_ensures(kernel, (o,), r) && o@ == op && r is Ok && r->Ok_0@ == out;
    assert(forward::fits(o@, r->Ok_0@));
}

/// The forward pass depends on the encoder through both projections: where all values of a head's
/// element in a layer's value table are equal, the cross-attention of that layer gives this value for
/// the element in every row, whatever the keys and the tokens are; and it is this output that is
/// projected and added to the layer's rows.
pub proof fn law_equal_encoder_values_pass_through<
    T: Add<Output = T> + Sub<Output = T> + Mul<Output = T>,
    M: Fn(T, T) -> T,
    E: Fn(T) -> T,
    R: Fn(T) -> T,
    Z: Fn(T) -> u32,
    V: Fn(u32) -> T,
    K: Fn(Op<T>) -> Result<Vec<T>, String>,
>(
    ctx: ForwardCtx<T>,
    engine: Engine<T, M, E, R, Z, V, K>,
    v: spec_fn(T) -> real,
    exp: spec_fn(real) -> real,
    tokens: Seq<u32>,
    start: int,
    causal_mask: bool,
    kv: Seq<LayerKVCache<T>>,
    kv2: Seq<LayerKVCache<T>>,
    logits: Seq<T>,
    l: nat,
    h: int,
    d: int,
    value: real,
)
    requires
        mean_laws::is_exact(engine.attn, v, exp),
        engine.ready(),
        ctx.wf(),
        ctx.enc_len > 0,
        forward::is_forward(ctx, engine, tokens, start, causal_mask, kv, kv2, logits),
        l < ctx.n_layer,
        0 <= h < ctx.n_head,
        0 <= d < ctx.head_dim,
        forall|j: int|
            0 <= j < ctx.enc_len ==> v(
                #[trigger] ctx.cross_v@[l as int]@[(h * ctx.enc_len + j) * ctx.head_dim + d],
            ) == value,
    ensures
        exists|x: Seq<T>, attended: Seq<T>, out: Seq<T>, y: Seq<T>|
            #![trigger is_residual(x, out, y), attended.len()]
            {
                &&& projected(
                    engine.kernel,
                    l,
                    attended,
                    tokens.len() as int,
                    ".cross_attn.out.weight"@,
                    Some(".cross_attn.out.bias"@),
                    Some(ctx.n_state as int),
                    out,
                )
                &&& is_residual(x, out, y)
                &&& forall|i: int|
                    0 <= i < tokens.len() ==> v(
                        #[trigger] attended[(i * ctx.n_head + h) * ctx.head_dim + d],
                    ) == value
            },
{
    let (xs, last) = choose|xs: Seq<Seq<T>>, last: Seq<T>| #[trigger]
        forward::forward_by(
            ctx,
            engine,
            tokens,
            start,
            causal_mask,
            kv,
            kv2,
            xs,
            last,
            logits,
        );
    let li = l as int;
    let rows = tokens.len() as usize;
    let enter = xs[li];
    assert(forward::is_layer(ctx, engine, l, rows, causal_mask, enter, kv[li], kv2[li], xs[li + 1]));
    law_layer_runs_three_parts(
        ctx,
        engine,
        l,
        rows,
        causal_mask,
        enter,
        kv[li],
        kv2[li],
        xs[li + 1],
    );
    let (a, b) = choose|a: Seq<T>, b: Seq<T>| #[trigger]
        forward::is_self_attention(
            ctx,
            engine,
            l,
            rows,
            causal_mask,
            enter,
            kv[li],
            kv2[li],
            a,
        ) && #[trigger] forward::is_cross_attention(ctx, engine, l, rows, a, b)
            && forward::is_feed_forward(ctx, engine, l, rows, b, xs[li + 1]);
    let c = choose|c: CrossTrace<T>| #[trigger]
        forward::cross_attention_by(ctx, engine, l, rows, a, b, c);
    lemma_projected_size(
        engine.kernel,
        forward::cross_ops(ctx.n_state as int, l, rows as int, a, c).query,
        rows as int,
        ctx.n_state as int,
        c.q,
    );
    assert(rows * (ctx.n_head * ctx.head_dim) == (rows * ctx.n_head) * ctx.head_dim)
        by (nonlinear_arith);
    assert forall|i: int| 0 <= i < tokens.len() implies v(
        #[trigger] c.attn[(i * ctx.n_head + h) * ctx.head_dim + d],
    ) == value by {
        mean_laws::law_cross_attention_means_values(
            ctx,
            engine,
            v,
            exp,
            l,
            rows,
            a,
            b,
            c,
            i,
            h,
        );
        let heads = ctx.n_head as int;
        let width = ctx.head_dim as int;
        let n = ctx.enc_len as int;
        let keys = ctx.cross_k@[l as int]@;
        let values = ctx.cross_v@[l as int]@;
        let own = |j: int, e: int| v(values[(h * n + j) * width + e]);
        assert forall|j: int| 0 <= j < n implies #[trigger] own(j, d) == value by {
            assert(v(values[(h * n + j) * width + d]) == value);
        }
        mean_laws::law_mean_of_equal_values(
            exp,
            ctx.enc_len as nat,
            ctx.head_dim as nat,
            v(ctx.scale),
            |e: int| v(c.q[(i * heads + h) * width + e]),
            |j: int, e: int| v(keys[(h * n + j) * width + e]),
            own,
            |e: int| v(c.attn[(i * heads + h) * width + e]),
            d,
            value,
        );
    }
    assert(is_residual(a, c.out, b));
}

/// A forward pass starts with the rows of its tokens: element `e` of row `i` is that of the token's
/// row in the token table plus that of position `start + i` in the table of positions. It runs all
/// layers in their order, norms what the last one left, and takes the logits from the last row alone,
/// by the token table.
pub proof fn law_forward_runs_from_tokens_to_logits<
    T: Add<Output = T> + Sub<Output = T> + Mul<Output = T>,
    M: Fn(T, T) -> T,
    E: Fn(T) -> T,
    R: Fn(T) -> T,
    Z: Fn(T) -> u32,
    V: Fn(u32) -> T,
    K: Fn(Op<T>) -> Result<Vec<T>, String>,
>(
    ctx: ForwardCtx<T>,
    engine: Engine<T, M, E, R, Z, V, K>,
    v: spec_fn(T) -> real,
    tokens: Seq<u32>,
    start: int,
    causal_mask: bool,
    kv: Seq<LayerKVCache<T>>,
    kv2: Seq<LayerKVCache<T>>,
    logits: Seq<T>,
)
    requires
        exact::adds(v),
        v(engine.attn.zero) == 0real,
        engine.ready(),
        ctx.wf(),
        0 <= start,
        tokens.len() > 0,
        forward::is_forward(ctx, engine, tokens, start, causal_mask, kv, kv2, logits),
    ensures
        exists|xs: Seq<Seq<T>>, last: Seq<T>, row: Seq<T>|
            #![trigger xs.len(), last.len(), row.len()]
            {
                let n = ctx.n_state as int;
                &&& xs.len() == ctx.n_layer + 1
                &&& forall|i: int, e: int|
                    0 <= i < tokens.len() && 0 <= e < n ==> v(#[trigger] xs[0][i * n + e]) == (
                    if tokens[i] < ctx.n_vocab {
                        v(ctx.tok_emb@[tokens[i] * n + e])
                    } else {
                        0real
                    }) + (if start + i < ctx.n_ctx {
                        v(ctx.pos_emb@[(start + i) * n + e])
                    } else {
                        0real
                    })
                &&& forall|l: int|
                    0 <= l < ctx.n_layer ==> forward::is_layer(
                        ctx,
                        engine,
                        l as nat,
                        tokens.len() as usize,
                        causal_mask,
                        #[trigger] xs[l],
                        kv[l],
                        kv2[l],
                        xs[l + 1],
                    )
                &&& forward::gives(
                    engine.kernel,
                    OpView::LayerNorm(
                        xs[ctx.n_layer as int],
                        "decoder.ln.weight"@,
                        "decoder.ln.bias"@,
                        0x3727_C5ACu32,
                    ),
                    last,
                )
                &&& row == last.subrange((tokens.len() - 1) * n, tokens.len() * n)
                &&& forward::gives(
                    engine.kernel,
                    OpView::Linear(
                        row,
                        1,
                        "decoder.token_embedding.weight"@,
                        None,
                        Some(ctx.n_vocab as int),
                    ),
                    logits,
                )
            },
{
    let (xs, last) = choose|xs: Seq<Seq<T>>, last: Seq<T>| #[trigger]
        forward::forward_by(
            ctx,
            engine,
            tokens,
            start,
            causal_mask,
            kv,
            kv2,
            xs,
            last,
            logits,
        );
    let n = ctx.n_state as int;
    let count = tokens.len() as int;
    let row = crate::rows::row(last, n, count - 1);
    assert((count - 1) * n + n == count * n) by (nonlinear_arith);
    assert(row == last.subrange((count - 1) * n, count * n));
    assert forall|i: int, e: int| 0 <= i < count && 0 <= e < n implies v(
        #[trigger] xs[0][i * n + e],
    ) == (if tokens[i] < ctx.n_vocab {
        v(ctx.tok_emb@[tokens[i] * n + e])
    } else {
        0real
    }) + (if start + i < ctx.n_ctx {
        v(ctx.pos_emb@[(start + i) * n + e])
    } else {
        0real
    }) by {
        let x = crate::rows::row(xs[0], n, i);
        let zero = engine.attn.zero;
        assert(forward::is_input_row(ctx, zero, tokens[i], start + i, x));
        crate::rows::lemma_row_fits(i, count, n);
        let base = forward::token_row(ctx, zero, tokens[i]);
        if tokens[i] < ctx.n_vocab {
            crate::rows::lemma_row_fits(tokens[i] as int, ctx.n_vocab as int, n);
        }
        if start + i < ctx.n_ctx {
            crate::rows::lemma_row_fits(start + i, ctx.n_ctx as int, n);
            let pos = crate::rows::row(ctx.pos_emb@, n, start + i);
            assert(crate::num::is_sum(base[e], pos[e], x[e]));
        }
        assert(x[e] == xs[0][i * n + e]);
    }
    assert(xs.len() == ctx.n_layer + 1);
    assert(last.len() == last.len() && row.len() == row.len());
}

/// The context holds what the encoder's output gives: the element of head `h` at position `j` in a
/// layer's key table is that of the keys which the layer's own key projection made of the encoder's
/// output, without a bias, and likewise for values, with one. Token and position tables are those
/// of their names, and the sizes are the model's.
pub proof fn law_context_projects_the_encoder<
    T,
    K: Fn(Op<T>) -> Result<Vec<T>, String>,
    A: Fn(String) -> Result<Table<T>, String>,
>(
    kernel: K,
    tables: A,
    encoder: Seq<T>,
    enc_len: usize,
    hp: Hparams,
    scale: T,
    ctx: ForwardCtx<T>,
    l: nat,
)
    requires
        crate::decoder::is_context(kernel, tables, encoder, enc_len, hp, scale, ctx),
        forward::sound(kernel),
        hp.n_text_head > 0,
        l < hp.n_text_layer,
    ensures
        ctx.scale == scale,
        ctx.enc_len == enc_len,
        ctx.n_layer == hp.n_text_layer,
        ctx.n_head == hp.n_text_head,
        ctx.n_state == hp.n_text_state,
        ctx.n_head * ctx.head_dim == hp.n_text_state,
        exists|keys: Seq<T>, values: Seq<T>|
            #![trigger keys.len(), values.len()]
            {
                let heads = ctx.n_head as int;
                let width = ctx.head_dim as int;
                let n = enc_len as int;
                &&& projected(
                    kernel,
                    l,
                    encoder,
                    n,
                    ".cross_attn.key.weight"@,
                    None,
                    Some(ctx.n_state as int),
                    keys,
                )
                &&& projected(
                    kernel,
                    l,
                    encoder,
                    n,
                    ".cross_attn.value.weight"@,
                    Some(".cross_attn.value.bias"@),
                    Some(ctx.n_state as int),
                    values,
                )
                &&& forall|h: int, j: int, d: int|
                    0 <= h < heads && 0 <= j < n && 0 <= d < width
                        ==> #[trigger] ctx.cross_k@[l as int]@[(h * n + j) * width + d] == keys[(j
                        * heads + h) * width + d]
                &&& forall|h: int, j: int, d: int|
                    0 <= h < heads && 0 <= j < n && 0 <= d < width
                        ==> #[trigger] ctx.cross_v@[l as int]@[(h * n + j) * width + d] == values[(j
                        * heads + h) * width + d]
            },
        exists|s: String, r: Result<Table<T>, String>| #[trigger]
            call_ensures(tables, (s,), r) && s@ == "decoder.token_embedding.weight"@ && r is Ok
                && r->Ok_0.data@ == ctx.tok_emb@ && r->Ok_0.rows == ctx.n_vocab,
        exists|s: String, r: Result<Table<T>, String>| #[trigger]
            call_ensures(tables, (s,), r) && s@ == "decoder.positional_embedding"@ && r is Ok
                && r->Ok_0.data@ == ctx.pos_emb@ && r->Ok_0.rows == ctx.n_ctx,
{
    let li = l as int;
    let heads = ctx.n_head as int;
    let width = ctx.head_dim as int;
    let n = enc_len as int;
    let stored_k = ctx.cross_k@[li]@;
    let stored_v = ctx.cross_v@[li]@;
    assert(crate::decoder::are_cross_keys(kernel, encoder, ctx, l, stored_k));
    assert(crate::decoder::are_cross_values(kernel, encoder, ctx, l, stored_v));
    let keys = choose|flat: Seq<T>| #[trigger]
        forward::gives(
            kernel,
            crate::decoder::cross_key_op(encoder, ctx.enc_len, ctx.n_state, l),
            flat,
        ) && attention::is_head_first(flat, heads, n, width, stored_k);
    let values = choose|flat: Seq<T>| #[trigger]
        forward::gives(
            kernel,
            crate::decoder::cross_value_op(encoder, ctx.enc_len, ctx.n_state, l),
            flat,
        ) && attention::is_head_first(flat, heads, n, width, stored_v);
    lemma_projected_size(
        kernel,
        crate::decoder::cross_key_op(encoder, ctx.enc_len, ctx.n_state, l),
        n,
        ctx.n_state as int,
        keys,
    );
    lemma_projected_size(
        kernel,
        crate::decoder::cross_value_op(encoder, ctx.enc_len, ctx.n_state, l),
        n,
        ctx.n_state as int,
        values,
    );
    assert forall|h: int, j: int, d: int|
        0 <= h < heads && 0 <= j < n && 0 <= d
            < width implies #[trigger] ctx.cross_k@[l as int]@[(h * n + j) * width + d] == keys[(j
        * heads + h) * width + d] by {
        law_head_first_moves_rows(keys, heads, n, width, stored_k, h, j, d);
    }
    assert forall|h: int, j: int, d: int|
        0 <= h < heads && 0 <= j < n && 0 <= d
            < width implies #[trigger] ctx.cross_v@[l as int]@[(h * n + j) * width + d] == values[(j
        * heads + h) * width + d] by {
        law_head_first_moves_rows(values, heads, n, width, stored_v, h, j, d);
    }
    assert(keys.len() == keys.len() && values.len() == values.len());
}

/// Head-first order holds every element at its place: element `d` of head `h` at position `j` moves
/// from position-first to head-first order.
pub proof fn law_head_first_moves_rows<T>(
    data: Seq<T>,
    n_head: int,
    seq_len: int,
    head_dim: int,
    out: Seq<T>,
    h: int,
    j: int,
    d: int,
)
    requires
        attention::is_head_first(data, n_head, seq_len, head_dim, out),
        data.len() >= seq_len * (n_head * head_dim),
        0 <= h < n_head,
        0 <= j < seq_len,
        0 <= d < head_dim,
    ensures
        out[(h * seq_len + j) * head_dim + d] == data[(j * n_head + h) * head_dim + d],
{
    crate::rows::lemma_place_fits(h, n_head, seq_len, j);
    crate::rows::lemma_place_fits(j, seq_len, n_head, h);
    crate::rows::lemma_row_fits(crate::rows::place(h, seq_len, j), n_head * seq_len, head_dim);
    crate::rows::lemma_row_fits(crate::rows::place(j, n_head, h), seq_len * n_head, head_dim);
    assert(seq_len * (n_head * head_dim) == (seq_len * n_head) * head_dim) by (nonlinear_arith);
    let a = crate::decoder::kv_cache::head_row(out, head_dim, h, seq_len, j);
    let b = crate::decoder::kv_cache::state_row(data, head_dim, j, n_head, h);
    assert(a == b);
    assert(a[d] == out[(h * seq_len + j) * head_dim + d]);
    assert(b[d] == data[(j * n_head + h) * head_dim + d]);
}

/// The scale of attention scores is the reciprocal of the square root of the head size: its square
/// times the head size is one.
pub proof fn law_scale_undoes_head_size<T, C: Fn(usize) -> T, S: Fn(T) -> T, I: Fn(T) -> T>(
    math: ScaleMath<C, S, I>,
    v: spec_fn(T) -> real,
    head_dim: usize,
    r: T,
)
    requires
        crate::decoder::is_scale(math, head_dim, r),
        forall|n: usize, x: T| #[trigger]
            call_ensures(math.count, (n,), x) ==> v(x) == (n as int) as real,
        forall|a: T, x: T| #[trigger]
            call_ensures(math.sqrt, (a,), x) && v(a) > 0real ==> v(x) > 0real && v(x) * v(x) == v(a),
        forall|a: T, x: T| #[trigger]
            call_ensures(math.recip, (a,), x) && v(a) != 0real ==> v(x) * v(a) == 1real,
        head_dim > 0,
    ensures
        v(r) * v(r) * (head_dim as int) as real == 1real,
        v(r) > 0real,
{
    let (n, root) = choose|n: T, root: T| #[trigger]
        call_ensures(math.sqrt, (n,), root) && call_ensures(math.count, (head_dim,), n)
            && call_ensures(math.recip, (root,), r);
    let a = v(r);
    let b = v(root);
    assert(a * b == 1real);
    assert(a * a * (b * b) == 1real) by (nonlinear_arith)
        requires
            a * b == 1real,
    ;
    assert(a > 0real) by (nonlinear_arith)
        requires
            a * b == 1real,
            b > 0real,
    ;
}

/// A decode runs on the encoder output that it is given: in a context whose tables project that output
/// (see [`law_context_projects_the_encoder`]), with the sizes of the model, and with a scale whose
/// square times the head size is one.
pub proof fn law_decode_runs_on_encoder_output<
    T: Add<Output = T> + Sub<Output = T> + Mul<Output = T>,
    M: Fn(T, T) -> T,
    E: Fn(T) -> T,
    R: Fn(T) -> T,
    Z: Fn(T) -> u32,
    V: Fn(u32) -> T,
    K: Fn(Op<T>) -> Result<Vec<T>, String>,
    A: Fn(String) -> Result<Table<T>, String>,
    C: Fn(usize) -> T,
    S: Fn(T) -> T,
    I: Fn(T) -> T,
>(
    encoder: Seq<T>,
    enc_len: usize,
    hp: Hparams,
    vocab: Seq<VocabEntry>,
    opts: TranscribeOptions<'_>,
    engine: Engine<T, M, E, R, Z, V, K>,
    choice: Choice<T>,
    tables: A,
    scale_math: ScaleMath<C, S, I>,
    d: Decoded<T>,
    v: spec_fn(T) -> real,
)
    requires
        crate::decoder::is_decode(
            encoder,
            enc_len,
            hp,
            vocab,
            opts,
            engine,
            choice,
            tables,
            scale_math,
            d,
        ),
        hp.n_text_head > 0,
        hp.n_text_state >= hp.n_text_head,
        forall|n: usize, x: T| #[trigger]
            call_ensures(scale_math.count, (n,), x) ==> v(x) == (n as int) as real,
        forall|a: T, x: T| #[trigger]
            call_ensures(scale_math.sqrt, (a,), x) && v(a) > 0real ==> v(x) > 0real && v(x) * v(x)
                == v(a),
        forall|a: T, x: T| #[trigger]
            call_ensures(scale_math.recip, (a,), x) && v(a) != 0real ==> v(x) * v(a) == 1real,
    ensures
        exists|ctx: ForwardCtx<T>| #[trigger]
            crate::decoder::is_decoded(ctx, engine, choice, opts, hp, vocab, d)
                && crate::decoder::is_context(
                engine.kernel,
                tables,
                encoder,
                enc_len,
                hp,
                ctx.scale,
                ctx,
            ) && ctx.n_head * ctx.head_dim == hp.n_text_state && ctx.n_head == hp.n_text_head && v(
                ctx.scale,
            ) * v(ctx.scale) * (ctx.head_dim as int) as real == 1real,
{
    let ctx = choose|ctx: ForwardCtx<T>| #[trigger]
        crate::decoder::is_decoded(ctx, engine, choice, opts, hp, vocab, d)
            && crate::decoder::is_context(
            engine.kernel,
            tables,
            encoder,
            enc_len,
            hp,
            ctx.scale,
            ctx,
        ) && crate::decoder::is_scale(scale_math, ctx.head_dim, ctx.scale);
    assert(ctx.head_dim > 0) by (nonlinear_arith)
        requires
            ctx.head_dim == hp.n_text_state as int / hp.n_text_head as int,
            hp.n_text_head > 0,
            hp.n_text_state >= hp.n_text_head,
    ;
    law_scale_undoes_head_size(scale_math, v, ctx.head_dim, ctx.scale);
}

} // verus!
