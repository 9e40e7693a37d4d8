//! When decoding fails: only where the kernels fail on weights of the decoder, or a table is
//! missing.

use crate::decoder::forward::{CrossTrace, Engine, FeedTrace, ForwardCtx, Op, OpView, SelfTrace};
use crate::decoder::kv_cache::LayerKVCache;
use crate::decoder::sampler::{Choice, Rules, RunTrace};
use crate::decoder::Table;
use crate::model::{Hparams, VocabEntry};
use crate::types::TranscribeOptions;
use core::ops::{Add, Mul, Sub};
use vstd::prelude::*;

verus! {

/// `weight` and `bias` are the names of two parts of block `l`, or of one.
pub open spec fn is_pair(
    l: nat,
    weight: Seq<char>,
    bias: Option<Seq<char>>,
    weight_part: Seq<char>,
    bias_part: Option<Seq<char>>,
) -> bool {
    &&& weight == crate::decoder::forward::block_name(l, weight_part)
    &&& bias == match bias_part {
        Some(b) => Some(crate::decoder::forward::block_name(l, b)),
        None => None,
    }
}

/// Whether weight and bias are those of a layer norm of block `l`.
pub open spec fn is_block_norm(l: nat, weight: Seq<char>, bias: Seq<char>) -> bool {
    ||| is_pair(l, weight, Some(bias), ".attn_ln.weight"@, Some(".attn_ln.bias"@))
    ||| is_pair(l, weight, Some(bias), ".cross_attn_ln.weight"@, Some(".cross_attn_ln.bias"@))
    ||| is_pair(l, weight, Some(bias), ".mlp_ln.weight"@, Some(".mlp_ln.bias"@))
}

/// Whether weight and bias are those of a linear layer of block `l`.
pub open spec fn is_block_linear(l: nat, weight: Seq<char>, bias: Option<Seq<char>>) -> bool {
    ||| is_pair(l, weight, bias, ".attn.query.weight"@, Some(".attn.query.bias"@))
    ||| is_pair(l, weight, bias, ".attn.key.weight"@, None)
    ||| is_pair(l, weight, bias, ".attn.value.weight"@, Some(".attn.value.bias"@))
    ||| is_pair(l, weight, bias, ".attn.out.weight"@, Some(".attn.out.bias"@))
    ||| is_pair(l, weight, bias, ".cross_attn.query.weight"@, Some(".cross_attn.query.bias"@))
    ||| is_pair(l, weight, bias, ".cross_attn.key.weight"@, None)
    ||| is_pair(l, weight, bias, ".cross_attn.value.weight"@, Some(".cross_attn.value.bias"@))
    ||| is_pair(l, weight, bias, ".cross_attn.out.weight"@, Some(".cross_attn.out.bias"@))
    ||| is_pair(l, weight, bias, ".mlp.0.weight"@, Some(".mlp.0.bias"@))
    ||| is_pair(l, weight, bias, ".mlp.2.weight"@, Some(".mlp.2.bias"@))
}

/// Whether an operation takes its weights from a decoder with `n_layer` blocks.
pub open spec fn is_decoder_op<T>(op: OpView<T>, n_layer: int) -> bool {
    match op {
        OpView::LayerNorm(_, weight, bias, epsilon) => {
            &&& epsilon == crate::decoder::forward::EPSILON_BITS
            &&& {
                ||| weight == "decoder.ln.weight"@ && bias == "decoder.ln.bias"@
                ||| exists|l: nat| l < n_layer && #[trigger] is_block_norm(l, weight, bias)
            }
        },
        OpView::Linear(_, _, weight, bias, _) => {
            ||| weight == "decoder.token_embedding.weight"@ && bias is None
            ||| exists|l: nat| l < n_layer && #[trigger] is_block_linear(l, weight, bias)
        },
        OpView::Gelu(_) => true,
    }
}

/// The kernels fail on an operation with weights of a decoder, with the message `e`.
pub open spec fn fails_on_decoder<T, K: Fn(Op<T>) -> Result<Vec<T>, String>>(
    kernel: K,
    n_layer: int,
    e: Seq<char>,
) -> bool {
    exists|op: OpView<T>| #[trigger]
        crate::decoder::forward::fails_on(kernel, op, e) && is_decoder_op(op, n_layer)
}

/// A failure of self-attention.
proof fn lemma_self_attention<
    T: Add<Output = T> + Sub<Output = T> + Mul<Output = T>,
    M: Fn(T, T) -> T,
    E: Fn(T) -> T,
    R: Fn(T) -> T,
    Z: Fn(T) -> u32,
    V: Fn(u32) -> T,
    K: Fn(Op<T>) -> Result<Vec<T>, String>,
>(
    ctx: ForwardCtx<T>,
    engine: Engine<T, M, E, R, Z, V, K>,
    layer: nat,
    q_len: usize,
    causal_mask: bool,
    x: Seq<T>,
    kv: LayerKVCache<T>,
    kv2: LayerKVCache<T>,
    e: Seq<char>,
)
    requires
        layer < ctx.n_layer,
        crate::decoder::forward::self_attention_fails(
            ctx,
            engine,
            layer,
            q_len,
            causal_mask,
            x,
            kv,
            kv2,
            e,
        ),
    ensures
        fails_on_decoder(engine.kernel, ctx.n_layer as int, e),
{
    let t = choose|t: SelfTrace<T>| #[trigger]
        crate::decoder::forward::self_attention_fails_by(
            ctx,
            engine,
            layer,
            q_len,
            causal_mask,
            x,
            kv,
            kv2,
            e,
            t,
        );
    let ops = crate::decoder::forward::self_ops(ctx.n_state as int, layer, q_len as int, x, t);
    assert(is_decoder_op(ops.norm, ctx.n_layer as int)) by {
        assert(is_block_norm(layer, ops.norm->LayerNorm_1, ops.norm->LayerNorm_2));
    }
    assert(is_decoder_op(ops.query, ctx.n_layer as int)) by {
        assert(is_block_linear(layer, ops.query->Linear_2, ops.query->Linear_3));
    }
    assert(is_decoder_op(ops.key, ctx.n_layer as int)) by {
        assert(is_block_linear(layer, ops.key->Linear_2, ops.key->Linear_3));
    }
    assert(is_decoder_op(ops.value, ctx.n_layer as int)) by {
        assert(is_block_linear(layer, ops.value->Linear_2, ops.value->Linear_3));
    }
    assert(is_decoder_op(ops.out, ctx.n_layer as int)) by {
        assert(is_block_linear(layer, ops.out->Linear_2, ops.out->Linear_3));
    }
}

/// A failure of cross-attention.
proof fn lemma_cross_attention<
    T: Add<Output = T> + Sub<Output = T> + Mul<Output = T>,
    M: Fn(T, T) -> T,
    E: Fn(T) -> T,
    R: Fn(T) -> T,
    Z: Fn(T) -> u32,
    V: Fn(u32) -> T,
    K: Fn(Op<T>) -> Result<Vec<T>, String>,
>(
    ctx: ForwardCtx<T>,
    engine: Engine<T, M, E, R, Z, V, K>,
    layer: nat,
    q_len: usize,
    x: Seq<T>,
    e: Seq<char>,
)
    requires
        layer < ctx.n_layer,
        crate::decoder::forward::cross_attention_fails(ctx, engine, layer, q_len, x, e),
    ensures
        fails_on_decoder(engine.kernel, ctx.n_layer as int, e),
{
    let t = choose|t: CrossTrace<T>| #[trigger]
        crate::decoder::forward::cross_attention_fails_by(ctx, engine, layer, q_len, x, e, t);
    let ops = crate::decoder::forward::cross_ops(ctx.n_state as int, layer, q_len as int, x, t);
    assert(is_decoder_op(ops.norm, ctx.n_layer as int)) by {
        assert(is_block_norm(layer, ops.norm->LayerNorm_1, ops.norm->LayerNorm_2));
    }
    assert(is_decoder_op(ops.query, ctx.n_layer as int)) by {
        assert(is_block_linear(layer, ops.query->Linear_2, ops.query->Linear_3));
    }
    assert(is_decoder_op(ops.out, ctx.n_layer as int)) by {
        assert(is_block_linear(layer, ops.out->Linear_2, ops.out->Linear_3));
    }
}

/// A failure of the feed-forward part.
proof fn lemma_feed_forward<
    T: Add<Output = T> + Sub<Output = T> + Mul<Output = T>,
    M: Fn(T, T) -> T,
    E: Fn(T) -> T,
    R: Fn(T) -> T,
    Z: Fn(T) -> u32,
    V: Fn(u32) -> T,
    K: Fn(Op<T>) -> Result<Vec<T>, String>,
>(
    ctx: ForwardCtx<T>,
    engine: Engine<T, M, E, R, Z, V, K>,
    layer: nat,
    q_len: usize,
    x: Seq<T>,
    e: Seq<char>,
)
    requires
        layer < ctx.n_layer,
        crate::decoder::forward::feed_forward_fails(ctx, engine, layer, q_len, x, e),
    ensures
        fails_on_decoder(engine.kernel, ctx.n_layer as int, e),
{
    let t = choose|t: FeedTrace<T>| #[trigger]
        crate::decoder::forward::feed_forward_fails_by(ctx, engine, layer, q_len, x, e, t);
    let ops = crate::decoder::forward::feed_ops(ctx.n_state as int, layer, q_len as int, x, t);
    assert(is_decoder_op(ops.norm, ctx.n_layer as int)) by {
        assert(is_block_norm(layer, ops.norm->LayerNorm_1, ops.norm->LayerNorm_2));
    }
    assert(is_decoder_op(ops.hidden, ctx.n_layer as int)) by {
        assert(is_block_linear(layer, ops.hidden->Linear_2, ops.hidden->Linear_3));
    }
    assert(is_decoder_op(ops.active, ctx.n_layer as int));
    assert(is_decoder_op(ops.out, ctx.n_layer as int)) by {
        assert(is_block_linear(layer, ops.out->Linear_2, ops.out->Linear_3));
    }
}

/// A forward pass fails only where the kernels fail on weights of the decoder: kernels that know
/// those never make it fail.
pub proof fn law_pass_fails_on_decoder_weights<
    T: Add<Output = T> + Sub<Output = T> + Mul<Output = T>,
    M: Fn(T, T) -> T,
    E: Fn(T) -> T,
    R: Fn(T) -> T,
    Z: Fn(T) -> u32,
    V: Fn(u32) -> T,
    K: Fn(Op<T>) -> Result<Vec<T>, String>,
>(
    ctx: ForwardCtx<T>,
    engine: Engine<T, M, E, R, Z, V, K>,
    tokens: Seq<u32>,
    start: int,
    causal_mask: bool,
    kv: Seq<LayerKVCache<T>>,
    kv2: Seq<LayerKVCache<T>>,
    e: Seq<char>,
)
    requires
        crate::decoder::forward::forward_fails(
            ctx,
            engine,
            tokens,
            start,
            causal_mask,
            kv,
            kv2,
            e,
        ),
    ensures
        fails_on_decoder(engine.kernel, ctx.n_layer as int, e),
{
    let (l, xs, normed) = choose|l: int, xs: Seq<Seq<T>>, normed: Seq<T>| #[trigger]
        crate::decoder::forward::forward_fails_by(
            ctx,
            engine,
            tokens,
            start,
            causal_mask,
            kv,
            kv2,
            e,
            l,
            xs,
            normed,
        );
    let rows = tokens.len() as usize;
    let n = ctx.n_layer as int;
    if l < n {
        let layer = l as nat;
        if crate::decoder::forward::self_attention_fails(
            ctx,
            engine,
            layer,
            rows,
            causal_mask,
            xs[l],
            kv[l],
            kv2[l],
            e,
        ) {
            lemma_self_attention(ctx, engine, layer, rows, causal_mask, xs[l], kv[l], kv2[l], e);
        } else if exists|a: Seq<T>| #[trigger]
            crate::decoder::forward::is_self_attention(
                ctx,
                engine,
                layer,
                rows,
                causal_mask,
                xs[l],
                kv[l],
                kv2[l],
                a,
            ) && crate::decoder::forward::cross_attention_fails(ctx, engine, layer, rows, a, e) {
            let a = choose|a: Seq<T>| #[trigger]
                crate::decoder::forward::is_self_attention(
                    ctx,
                    engine,
                    layer,
                    rows,
                    causal_mask,
                    xs[l],
                    kv[l],
                    kv2[l],
                    a,
                ) && crate::decoder::forward::cross_attention_fails(
                    ctx,
                    engine,
                    layer,
                    rows,
                    a,
                    e,
                );
            lemma_cross_attention(ctx, engine, layer, rows, a, e);
        } else {
            let (a, b) = choose|a: Seq<T>, b: Seq<T>| #[trigger]
                crate::decoder::forward::is_self_attention(
                    ctx,
                    engine,
                    layer,
                    rows,
                    causal_mask,
                    xs[l],
                    kv[l],
                    kv2[l],
                    a,
                ) && #[trigger] crate::decoder::forward::is_cross_attention(
                    ctx,
                    engine,
                    layer,
                    rows,
                    a,
                    b,
                ) && crate::decoder::forward::feed_forward_fails(ctx, engine, layer, rows, b, e);
            lemma_feed_forward(ctx, engine, layer, rows, b, e);
        }
    } else {
        assert(is_decoder_op(crate::decoder::forward::final_norm(xs[n]), n));
        assert(is_decoder_op(
            crate::decoder::forward::head_op(ctx, normed, tokens.len() as int),
            n,
        ));
    }
}

/// The preparation of a context fails only where the kernels fail on weights of the decoder, or an
/// embedding table is missing.
pub proof fn law_preparation_fails_on_decoder_weights<
    T,
    K: Fn(Op<T>) -> Result<Vec<T>, String>,
    A: Fn(String) -> Result<Table<T>, String>,
>(kernel: K, tables: A, encoder: Seq<T>, enc_len: usize, hp: Hparams, e: Seq<char>)
    requires
        crate::decoder::prepare_fails(kernel, tables, encoder, enc_len, hp, e),
    ensures
        fails_on_decoder(kernel, hp.n_text_layer as int, e) || crate::decoder::lacks_table(
            tables,
            "decoder.token_embedding.weight"@,
            e,
        ) || crate::decoder::lacks_table(tables, "decoder.positional_embedding"@, e),
{
    if exists|l: int| #[trigger]
        crate::decoder::cross_fails_at(kernel, encoder, enc_len, hp, e, l) {
        let l = choose|l: int| #[trigger]
            crate::decoder::cross_fails_at(kernel, encoder, enc_len, hp, e, l);
        let key = crate::decoder::cross_key_op(encoder, enc_len, hp.n_text_state, l as nat);
        let value = crate::decoder::cross_value_op(encoder, enc_len, hp.n_text_state, l as nat);
        assert(is_decoder_op(key, hp.n_text_layer as int)) by {
            assert(is_block_linear(l as nat, key->Linear_2, key->Linear_3));
        }
        assert(is_decoder_op(value, hp.n_text_layer as int)) by {
            assert(is_block_linear(l as nat, value->Linear_2, value->Linear_3));
        }
    }
}

/// Decoding in a context fails only where the kernels fail on weights of the decoder: kernels that
/// know those lead to an output.
pub proof fn law_decoding_fails_on_decoder_weights<
    T: Add<Output = T> + Sub<Output = T> + Mul<Output = T>,
    M: Fn(T, T) -> T,
    E: Fn(T) -> T,
    R: Fn(T) -> T,
    Z: Fn(T) -> u32,
    V: Fn(u32) -> T,
    K: Fn(Op<T>) -> Result<Vec<T>, String>,
>(
    ctx: ForwardCtx<T>,
    engine: Engine<T, M, E, R, Z, V, K>,
    choice: Choice<T>,
    opts: TranscribeOptions<'_>,
    hp: Hparams,
    vocab: Seq<VocabEntry>,
    e: Seq<char>,
)
    requires
        crate::decoder::decoding_fails(ctx, engine, choice, opts, hp, vocab, e),
    ensures
        fails_on_decoder(engine.kernel, ctx.n_layer as int, e),
{
    let special = crate::tokenizer::multilingual();
    if opts.language is None && crate::decoder::detection_fails(ctx, engine, special, e) {
        let (kv, kv2) = choose|kv: Seq<LayerKVCache<T>>, kv2: Seq<LayerKVCache<T>>| #[trigger]
            crate::decoder::forward::forward_fails(
                ctx,
                engine,
                seq![special.sot],
                0,
                true,
                kv,
                kv2,
                e,
            ) && crate::decoder::sampler::are_fresh(
                kv,
                ctx,
                crate::decoder::DETECT_CAPACITY as int,
                engine.attn.zero,
            );
        law_pass_fails_on_decoder_weights(
            ctx,
            engine,
            seq![special.sot],
            0,
            true,
            kv,
            kv2,
            e,
        );
    } else {
        let token = choose|token: u32| #[trigger]
            crate::decoder::generation_fails(ctx, engine, choice, opts, hp, vocab, token, e);
        let p = crate::decoder::prompt::prompt_of(
            special,
            token,
            opts.timestamps,
            crate::decoder::initial_tokens(opts, vocab),
        );
        let strategy = crate::decoder::strategy_of(opts)->0;
        law_run_fails_on_decoder_weights(
            ctx,
            engine,
            choice,
            crate::decoder::rules_for(opts, hp, p.len() as int, strategy),
            p,
            crate::decoder::capacity_for(p.len() as int),
            e,
        );
    }
}

/// A run of decoding breaks off only where the kernels fail on weights of the decoder.
pub proof fn law_run_fails_on_decoder_weights<
    T: Add<Output = T> + Sub<Output = T> + Mul<Output = T>,
    M: Fn(T, T) -> T,
    E: Fn(T) -> T,
    R: Fn(T) -> T,
    Z: Fn(T) -> u32,
    V: Fn(u32) -> T,
    K: Fn(Op<T>) -> Result<Vec<T>, String>,
>(
    ctx: ForwardCtx<T>,
    engine: Engine<T, M, E, R, Z, V, K>,
    choice: Choice<T>,
    rules: Rules,
    prompt: Seq<u32>,
    capacity: int,
    e: Seq<char>,
)
    requires
        crate::decoder::sampler::is_broken_off(ctx, engine, choice, rules, prompt, capacity, e),
    ensures
        fails_on_decoder(engine.kernel, ctx.n_layer as int, e),
{
    let (tokens, probs, t, kv2) = choose|
        tokens: Seq<u32>,
        probs: Seq<T>,
        t: RunTrace<T>,
        kv2: Seq<LayerKVCache<T>>,
    | #[trigger]
        crate::decoder::sampler::broken_off_by(
            ctx,
            engine,
            choice,
            rules,
            prompt,
            capacity,
            e,
            tokens,
            probs,
            t,
            kv2,
        );
    let n = tokens.len() as int;
    law_pass_fails_on_decoder_weights(
        ctx,
        engine,
        crate::decoder::sampler::pass_input(prompt, tokens, n),
        crate::decoder::sampler::pass_position(prompt, n),
        n == 0,
        t.kvs[n],
        kv2,
        e,
    );
}

} // verus!
