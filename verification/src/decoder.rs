//! The text decoder: KV cache, attention, forward pass, decoding strategies.

pub mod attention;
pub mod choice_laws;
pub mod failures;
pub mod forward;
pub mod kv_cache;
pub mod laws;
pub mod mean_laws;
pub mod option_laws;
pub mod pass_laws;
pub mod prompt;
pub mod sampler;
pub mod unique;

use crate::bits::bits_of;
use crate::decode_utils::{get_threshold, pick_language, DecodeConstraints};
use crate::decoder::attention::to_head_first;
use crate::decoder::forward::{
    forward, run_linear, run_unbiased, Engine, ForwardCtx, Op, OpView,
};
use crate::decoder::kv_cache::LayerKVCache;
use crate::decoder::prompt::{build_prompt, encode_prompt_text};
use crate::decoder::sampler::{
    decode_greedy, decode_sample, fresh_caches, Chooser, Choice, Sampling, Strategy,
    MAX_DECODE_LENGTH,
};
pub use crate::languages::language_code_from_token;
use crate::model::{Hparams, VocabEntry};
use crate::tokenizer::SpecialTokens;
use crate::types::TranscribeOptions;
use core::ops::{Add, Div, Mul, Sub};
use vstd::prelude::*;
use vstd::slice::slice_to_vec;
use vstd::string::*;

verus! {

/// Result from the decoder containing token ids and optionally the detected language.
pub struct DecodeResult<T> {
    /// Decoded output token ids (excluding prompt tokens).
    pub tokens: Vec<u32>,
    /// Per-token log-probability (same length as `tokens`).
    pub token_probs: Vec<T>,
    /// Detected language code (e.g. `"en"`, `"ja"`), or `None` if language was
    /// explicitly specified via options.
    pub detected_language: Option<String>,
}

/// What is left to do for a beam search.
pub struct BeamJob<T> {
    /// Context of the forward passes.
    pub ctx: ForwardCtx<T>,
    /// Prompt.
    pub prompt: Vec<u32>,
    /// Number of cache positions.
    pub kv_capacity: usize,
    /// Special tokens.
    pub special: SpecialTokens,
    /// Number of beams.
    pub beam_width: usize,
    /// Threshold of the tokens that stop decoding.
    pub eot_threshold: u32,
    /// Tokens that are never chosen.
    pub suppress: Vec<u32>,
    /// Size of the n-grams that must not repeat; 0 for no such limit.
    pub no_repeat_ngram_size: usize,
    /// Detected language code.
    pub detected_language: Option<String>,
}

/// Outcome of decoding.
pub enum Decoded<T> {
    /// The output of greedy decoding or sampling.
    Done(DecodeResult<T>),
    /// A beam search is asked for; it is the caller's.
    Beam(BeamJob<T>),
}

/// An embedding table: elements, and number of rows.
pub struct Table<T> {
    /// Elements, row by row.
    pub data: Vec<T>,
    /// Number of rows.
    pub rows: usize,
}

/// The tables are found by name, and have their rows.
pub open spec fn tables_sound<T, A: Fn(String) -> Result<Table<T>, String>>(
    tables: A,
    width: int,
) -> bool {
    &&& forall|name: String| #[trigger] call_requires(tables, (name,))
    &&& forall|name: String, r: Result<Table<T>, String>| #[trigger]
        call_ensures(tables, (name,), r) && r is Ok ==> r->Ok_0.rows * width
            <= r->Ok_0.data@.len()
}

/// The table of a name has the elements `data` and `rows` rows.
pub open spec fn has_table<T, A: Fn(String) -> Result<Table<T>, String>>(
    tables: A,
    name: Seq<char>,
    data: Seq<T>,
    rows: usize,
) -> bool {
    exists|s: String, r: Result<Table<T>, String>| #[trigger]
        call_ensures(tables, (s,), r) && s@ == name && r is Ok && r->Ok_0.data@ == data
            && r->Ok_0.rows == rows
}

/// The table of a name could not be found, with the message `e`.
pub open spec fn lacks_table<T, A: Fn(String) -> Result<Table<T>, String>>(
    tables: A,
    name: Seq<char>,
    e: Seq<char>,
) -> bool {
    exists|s: String, r: Result<Table<T>, String>| #[trigger]
        call_ensures(tables, (s,), r) && s@ == name && r is Err && r->Err_0@ == e
}

/// The operation that gives the cross-attention keys of a layer.
pub open spec fn cross_key_op<T>(
    encoder: Seq<T>,
    enc_len: usize,
    n_state: usize,
    layer: nat,
) -> OpView<T> {
    forward::unbiased(
        layer,
        encoder,
        enc_len as int,
        ".cross_attn.key.weight"@,
        n_state as int,
    )
}

/// The operation that gives the cross-attention values of a layer.
pub open spec fn cross_value_op<T>(
    encoder: Seq<T>,
    enc_len: usize,
    n_state: usize,
    layer: nat,
) -> OpView<T> {
    forward::biased(
        layer,
        encoder,
        enc_len as int,
        ".cross_attn.value.weight"@,
        ".cross_attn.value.bias"@,
        Some(n_state as int),
    )
}

/// The keys that cross-attention of a layer takes from the encoder's output.
pub open spec fn are_cross_keys<T, K: Fn(Op<T>) -> Result<Vec<T>, String>>(
    kernel: K,
    encoder: Seq<T>,
    ctx: ForwardCtx<T>,
    layer: nat,
    heads: Seq<T>,
) -> bool {
    exists|flat: Seq<T>| #[trigger]
        forward::gives(kernel, cross_key_op(encoder, ctx.enc_len, ctx.n_state, layer), flat)
            && attention::is_head_first(
            flat,
            ctx.n_head as int,
            ctx.enc_len as int,
            ctx.head_dim as int,
            heads,
        )
}

/// The values that cross-attention of a layer takes from the encoder's output.
pub open spec fn are_cross_values<T, K: Fn(Op<T>) -> Result<Vec<T>, String>>(
    kernel: K,
    encoder: Seq<T>,
    ctx: ForwardCtx<T>,
    layer: nat,
    heads: Seq<T>,
) -> bool {
    exists|flat: Seq<T>| #[trigger]
        forward::gives(kernel, cross_value_op(encoder, ctx.enc_len, ctx.n_state, layer), flat)
            && attention::is_head_first(
            flat,
            ctx.n_head as int,
            ctx.enc_len as int,
            ctx.head_dim as int,
            heads,
        )
}

/// The kernels gave something for `op`.
pub open spec fn is_given<T, K: Fn(Op<T>) -> Result<Vec<T>, String>>(
    kernel: K,
    op: OpView<T>,
) -> bool {
    exists|out: Seq<T>| #[trigger] forward::gives(kernel, op, out)
}

/// The table of a name was found.
pub open spec fn finds_table<T, A: Fn(String) -> Result<Table<T>, String>>(
    tables: A,
    name: Seq<char>,
) -> bool {
    exists|data: Seq<T>, rows: usize| #[trigger] has_table(tables, name, data, rows)
}

/// The kernels failed with the message `e` on the keys or the values of layer `l`, behind those of
/// all layers before.
pub open spec fn cross_fails_at<T, K: Fn(Op<T>) -> Result<Vec<T>, String>>(
    kernel: K,
    encoder: Seq<T>,
    enc_len: usize,
    hp: Hparams,
    e: Seq<char>,
    l: int,
) -> bool {
    let n_state = hp.n_text_state;
    let key = cross_key_op(encoder, enc_len, n_state, l as nat);
    &&& 0 <= l < hp.n_text_layer
    &&& cross_given(kernel, encoder, enc_len, n_state, l)
    &&& {
        ||| forward::fails_on(kernel, key, e)
        ||| is_given(kernel, key) && forward::fails_on(
            kernel,
            cross_value_op(encoder, enc_len, n_state, l as nat),
            e,
        )
    }
}

/// The kernels gave the cross-attention keys and values of the first `n` layers.
pub open spec fn cross_given<T, K: Fn(Op<T>) -> Result<Vec<T>, String>>(
    kernel: K,
    encoder: Seq<T>,
    enc_len: usize,
    n_state: usize,
    n: int,
) -> bool {
    forall|j: int|
        0 <= j < n ==> is_given(
            kernel,
            #[trigger] cross_key_op(encoder, enc_len, n_state, j as nat),
        ) && is_given(kernel, cross_value_op(encoder, enc_len, n_state, j as nat))
}

/// The preparation of a context fails with the message `e`: on keys or values of a layer, or behind
/// those on the table of the tokens, or behind that on the table of the positions.
pub open spec fn prepare_fails<
    T,
    K: Fn(Op<T>) -> Result<Vec<T>, String>,
    A: Fn(String) -> Result<Table<T>, String>,
>(
    kernel: K,
    tables: A,
    encoder: Seq<T>,
    enc_len: usize,
    hp: Hparams,
    e: Seq<char>,
) -> bool {
    ||| exists|l: int| #[trigger] cross_fails_at(kernel, encoder, enc_len, hp, e, l)
    ||| cross_given(kernel, encoder, enc_len, hp.n_text_state, hp.n_text_layer as int) && {
        ||| lacks_table(tables, "decoder.token_embedding.weight"@, e)
        ||| finds_table(tables, "decoder.token_embedding.weight"@) && lacks_table(
            tables,
            "decoder.positional_embedding"@,
            e,
        )
    }
}

/// The functions of numbers that the scale of attention scores rests on.
pub struct ScaleMath<C, S, I> {
    /// The number of a count.
    pub count: C,
    /// The square root.
    pub sqrt: S,
    /// The reciprocal.
    pub recip: I,
}

impl<C, S, I> ScaleMath<C, S, I> {
    /// Every function accepts every argument.
    pub open spec fn total<T>(&self) -> bool where
        C: Fn(usize) -> T,
        S: Fn(T) -> T,
        I: Fn(T) -> T,
     {
        &&& forall|n: usize| #[trigger] call_requires(self.count, (n,))
        &&& forall|a: T| #[trigger] call_requires(self.sqrt, (a,))
        &&& forall|a: T| #[trigger] call_requires(self.recip, (a,))
    }
}

/// `r` is the scale of attention scores: the reciprocal of the square root of the head size.
pub open spec fn is_scale<T, C: Fn(usize) -> T, S: Fn(T) -> T, I: Fn(T) -> T>(
    math: ScaleMath<C, S, I>,
    head_dim: usize,
    r: T,
) -> bool {
    exists|n: T, root: T| #[trigger]
        call_ensures(math.sqrt, (n,), root) && call_ensures(math.count, (head_dim,), n)
            && call_ensures(math.recip, (root,), r)
}

/// The scale of attention scores.
pub fn get_scale<T, C: Fn(usize) -> T, S: Fn(T) -> T, I: Fn(T) -> T>(
    math: &ScaleMath<C, S, I>,
    head_dim: usize,
) -> (r: T)
    requires
        math.total::<T>(),
    ensures
        is_scale(*math, head_dim, r),
{
    let n: T = (math.count)(head_dim);
    let ghost given = n;
    let root: T = (math.sqrt)(n);
    let ghost before = root;
    let r: T = (math.recip)(root);
    assert(call_ensures(math.sqrt, (given,), before));
    r
}

/// `ctx` is the context of decoding an encoder output with a model.
pub open spec fn is_context<
    T,
    K: Fn(Op<T>) -> Result<Vec<T>, String>,
    A: Fn(String) -> Result<Table<T>, String>,
>(
    kernel: K,
    tables: A,
    encoder: Seq<T>,
    enc_len: usize,
    hp: Hparams,
    scale: T,
    ctx: ForwardCtx<T>,
) -> bool {
    &&& ctx.wf()
    &&& ctx.enc_len == enc_len
    &&& ctx.n_state == hp.n_text_state
    &&& ctx.n_layer == hp.n_text_layer
    &&& ctx.n_head == hp.n_text_head
    &&& ctx.head_dim == hp.n_text_state as int / hp.n_text_head as int
    &&& ctx.scale == scale
    &&& forall|l: int|
        0 <= l < ctx.n_layer ==> are_cross_keys(
            kernel,
            encoder,
            ctx,
            l as nat,
            (#[trigger] ctx.cross_k@[l])@,
        )
    &&& forall|l: int|
        0 <= l < ctx.n_layer ==> are_cross_values(
            kernel,
            encoder,
            ctx,
            l as nat,
            (#[trigger] ctx.cross_v@[l])@,
        )
    &&& has_table(tables, "decoder.token_embedding.weight"@, ctx.tok_emb@, ctx.n_vocab)
    &&& has_table(tables, "decoder.positional_embedding"@, ctx.pos_emb@, ctx.n_ctx)
}

/// Looks up a table.
fn find_table<T, A: Fn(String) -> Result<Table<T>, String>>(
    tables: &A,
    name: &str,
    width: Ghost<int>,
) -> (r: Result<Table<T>, String>)
    requires
        tables_sound(*tables, width@),
    ensures
        match r {
            Ok(t) => has_table(*tables, name@, t.data@, t.rows) && t.rows * width@
                <= t.data@.len(),
            Err(e) => lacks_table(*tables, name@, e@),
        },
{
    let s: String = name.to_string();
    let ghost given = s;
    let r: Result<Table<T>, String> = tables(s);
    assert(call_ensures(*tables, (given,), r));
    r
}

/// The sizes that a context needs.
pub open spec fn sizes_fit(hp: Hparams, enc_len: usize) -> bool {
    &&& hp.n_text_head > 0
    &&& hp.n_text_state == hp.n_text_head * (hp.n_text_state as int / hp.n_text_head as int)
    &&& hp.n_text_head * enc_len <= usize::MAX
}

/// Computes the cross-attention keys and values of all layers and looks up the embeddings.
pub fn prepare<
    T: Copy,
    K: Fn(Op<T>) -> Result<Vec<T>, String>,
    A: Fn(String) -> Result<Table<T>, String>,
>(
    kernel: &K,
    tables: &A,
    encoder_output: &[T],
    enc_len: usize,
    hp: &Hparams,
    scale: T,
) -> (r: Result<ForwardCtx<T>, String>)
    requires
        forward::sound(*kernel),
        tables_sound(*tables, hp.n_text_state as int),
        sizes_fit(*hp, enc_len),
    ensures
        match r {
            Ok(ctx) => is_context(*kernel, *tables, encoder_output@, enc_len, *hp, scale, ctx),
            Err(e) => prepare_fails(*kernel, *tables, encoder_output@, enc_len, *hp, e@),
        },
{
    let n_state: usize = hp.n_text_state;
    let n_head: usize = hp.n_text_head;
    let n_layer: usize = hp.n_text_layer;
    let head_dim: usize = n_state / n_head;
    let mut ctx = ForwardCtx {
        cross_k: Vec::new(),
        cross_v: Vec::new(),
        enc_len,
        tok_emb: Vec::new(),
        n_vocab: 0,
        pos_emb: Vec::new(),
        n_ctx: 0,
        n_state,
        n_layer,
        n_head,
        head_dim,
        scale,
    };
    proof {
        assert(enc_len * (n_head * head_dim) == (n_head * enc_len) * head_dim) by (nonlinear_arith);
    }
    let ghost dims = ctx;
    let mut layer: usize = 0;
    while layer < n_layer
        invariant
            layer <= n_layer,
            forward::sound(*kernel),
            n_layer == hp.n_text_layer,
            n_state == hp.n_text_state,
            cross_given(*kernel, encoder_output@, enc_len, n_state, layer as int),
            n_head * enc_len <= usize::MAX,
            enc_len * n_state == (n_head * enc_len) * head_dim,
            dims.enc_len == enc_len && dims.n_state == n_state && dims.n_layer == n_layer
                && dims.n_head == n_head && dims.head_dim == head_dim,
            ctx.enc_len == enc_len,
            ctx.n_state == n_state,
            ctx.n_layer == n_layer,
            ctx.n_head == n_head,
            ctx.head_dim == head_dim,
            ctx.scale == scale,
            ctx.cross_k@.len() == layer,
            ctx.cross_v@.len() == layer,
            forall|l: int|
                0 <= l < layer ==> are_cross_keys(
                    *kernel,
                    encoder_output@,
                    dims,
                    l as nat,
                    (#[trigger] ctx.cross_k@[l])@,
                ) && ctx.cross_k@[l]@.len() == (n_head * enc_len) * head_dim,
            forall|l: int|
                0 <= l < layer ==> are_cross_values(
                    *kernel,
                    encoder_output@,
                    dims,
                    l as nat,
                    (#[trigger] ctx.cross_v@[l])@,
                ) && ctx.cross_v@[l]@.len() == (n_head * enc_len) * head_dim,
        decreases n_layer - layer,
    {
        let ck: Vec<T> = match run_unbiased(
            kernel,
            layer,
            encoder_output,
            enc_len,
            ".cross_attn.key.weight",
            n_state,
        ) {
            Ok(v) => v,
            Err(e) => {
                assert(cross_fails_at(
                    *kernel,
                    encoder_output@,
                    enc_len,
                    *hp,
                    e@,
                    layer as int,
                ));
                return Err(e);
            },
        };
        let cv: Vec<T> = match run_linear(
            kernel,
            layer,
            encoder_output,
            enc_len,
            ".cross_attn.value.weight",
            ".cross_attn.value.bias",
            Some(n_state),
        ) {
            Ok(v) => v,
            Err(e) => {
                assert(is_given(
                    *kernel,
                    cross_key_op(encoder_output@, enc_len, n_state, layer as nat),
                ));
                assert(cross_fails_at(
                    *kernel,
                    encoder_output@,
                    enc_len,
                    *hp,
                    e@,
                    layer as int,
                ));
                return Err(e);
            },
        };
        let kh: Vec<T> = to_head_first(ck.as_slice(), n_head, enc_len, head_dim);
        let vh: Vec<T> = to_head_first(cv.as_slice(), n_head, enc_len, head_dim);
        assert(are_cross_keys(*kernel, encoder_output@, dims, layer as nat, kh@));
        assert(are_cross_values(*kernel, encoder_output@, dims, layer as nat, vh@));
        assert(is_given(
            *kernel,
            cross_key_op(encoder_output@, enc_len, n_state, layer as nat),
        ));
        assert(is_given(
            *kernel,
            cross_value_op(encoder_output@, enc_len, n_state, layer as nat),
        ));
        ctx.cross_k.push(kh);
        ctx.cross_v.push(vh);
        layer = layer + 1;
    }
    let tok: Table<T> = match find_table(
        tables,
        "decoder.token_embedding.weight",
        Ghost(n_state as int),
    ) {
        Ok(t) => t,
        Err(e) => {
            return Err(e);
        },
    };
    let pos: Table<T> = match find_table(
        tables,
        "decoder.positional_embedding",
        Ghost(n_state as int),
    ) {
        Ok(t) => t,
        Err(e) => {
            return Err(e);
        },
    };
    ctx.tok_emb = tok.data;
    ctx.n_vocab = tok.rows;
    ctx.pos_emb = pos.data;
    ctx.n_ctx = pos.rows;
    proof {
        assert forall|l: int| 0 <= l < n_layer implies are_cross_keys(
            *kernel,
            encoder_output@,
            ctx,
            l as nat,
            (#[trigger] ctx.cross_k@[l])@,
        ) by {
            assert(are_cross_keys(*kernel, encoder_output@, dims, l as nat, ctx.cross_k@[l]@));
        }
        assert forall|l: int| 0 <= l < n_layer implies are_cross_values(
            *kernel,
            encoder_output@,
            ctx,
            l as nat,
            (#[trigger] ctx.cross_v@[l])@,
        ) by {
            assert(are_cross_values(*kernel, encoder_output@, dims, l as nat, ctx.cross_v@[l]@));
        }
    }
    Ok(ctx)
}

/// Number of cache positions for language detection.
pub const DETECT_CAPACITY: usize = 234;

/// How the language token was detected: by one forward pass on the start token, from the bit
/// patterns of its logits.
pub open spec fn detected_by<
    T: Add<Output = T> + Sub<Output = T> + Mul<Output = T>,
    M: Fn(T, T) -> T,
    E: Fn(T) -> T,
    R: Fn(T) -> T,
    Z: Fn(T) -> u32,
    V: Fn(u32) -> T,
    K: Fn(Op<T>) -> Result<Vec<T>, String>,
>(
    ctx: ForwardCtx<T>,
    engine: Engine<T, M, E, R, Z, V, K>,
    choice: Choice<T>,
    special: SpecialTokens,
    token: u32,
    kv: Seq<LayerKVCache<T>>,
    kv2: Seq<LayerKVCache<T>>,
    logits: Seq<T>,
    bits: Seq<u32>,
) -> bool {
    &&& sampler::are_fresh(kv, ctx, DETECT_CAPACITY as int, engine.attn.zero)
    &&& forward::is_forward(ctx, engine, seq![special.sot], 0, true, kv, kv2, logits)
    &&& sampler::are_logit_bits(choice, logits, bits)
    &&& token == crate::decode_utils::best_language(bits)
}

/// `token` is the detected language.
pub open spec fn is_detected<
    T: Add<Output = T> + Sub<Output = T> + Mul<Output = T>,
    M: Fn(T, T) -> T,
    E: Fn(T) -> T,
    R: Fn(T) -> T,
    Z: Fn(T) -> u32,
    V: Fn(u32) -> T,
    K: Fn(Op<T>) -> Result<Vec<T>, String>,
>(
    ctx: ForwardCtx<T>,
    engine: Engine<T, M, E, R, Z, V, K>,
    choice: Choice<T>,
    special: SpecialTokens,
    token: u32,
) -> bool {
    exists|
        kv: Seq<LayerKVCache<T>>,
        kv2: Seq<LayerKVCache<T>>,
        logits: Seq<T>,
        bits: Seq<u32>,
    | #[trigger]
        detected_by(ctx, engine, choice, special, token, kv, kv2, logits, bits)
}

/// Language detection fails with the message `e` in its forward pass on the start token.
pub open spec fn detection_fails<
    T: Add<Output = T> + Sub<Output = T> + Mul<Output = T>,
    M: Fn(T, T) -> T,
    E: Fn(T) -> T,
    R: Fn(T) -> T,
    Z: Fn(T) -> u32,
    V: Fn(u32) -> T,
    K: Fn(Op<T>) -> Result<Vec<T>, String>,
>(
    ctx: ForwardCtx<T>,
    engine: Engine<T, M, E, R, Z, V, K>,
    special: SpecialTokens,
    e: Seq<char>,
) -> bool {
    exists|kv: Seq<LayerKVCache<T>>, kv2: Seq<LayerKVCache<T>>| #[trigger]
        forward::forward_fails(ctx, engine, seq![special.sot], 0, true, kv, kv2, e)
            && sampler::are_fresh(kv, ctx, DETECT_CAPACITY as int, engine.attn.zero)
}

/// Auto-detect language by running a single forward pass on the start token and taking the
/// largest of the language token logits.
pub fn detect_language<
    T: Copy + Add<Output = T> + Sub<Output = T> + Mul<Output = T> + Div<Output = T>,
    M: Fn(T, T) -> T,
    E: Fn(T) -> T,
    R: Fn(T) -> T,
    Z: Fn(T) -> u32,
    V: Fn(u32) -> T,
    K: Fn(Op<T>) -> Result<Vec<T>, String>,
    X: Fn(T, T) -> T,
    Y: Fn(T) -> T,
    N: Fn(T) -> T,
    B: Fn(T) -> u32,
    G: Fn(T, T) -> bool,
    L: Fn(T, T) -> bool,
    F: Fn(u32) -> T,
    U: Fn() -> T,
>(
    ctx: &ForwardCtx<T>,
    engine: &Engine<T, M, E, R, Z, V, K>,
    chooser: &Chooser<T, X, Y, N, B, G, L, F, U>,
    special: &SpecialTokens,
) -> (r: Result<u32, String>)
    requires
        ctx.wf(),
        engine.ready(),
        chooser.total(),
        ctx.n_head * DETECT_CAPACITY <= usize::MAX,
        (ctx.n_head * DETECT_CAPACITY) * ctx.head_dim <= usize::MAX,
    ensures
        match r {
            Ok(token) => is_detected(*ctx, *engine, chooser.choice(), *special, token)
                && crate::languages::LANG_TOKEN_START <= token < crate::languages::LANG_TOKEN_END,
            Err(e) => detection_fails(*ctx, *engine, *special, e@),
        },
{
    let mut kv: Vec<LayerKVCache<T>> = fresh_caches(ctx, DETECT_CAPACITY, engine.attn.zero);
    let ghost fresh = kv@;
    let start: [u32; 1] = [special.sot];
    assert(start@ =~= seq![special.sot]);
    let logits: Vec<T> = match forward(start.as_slice(), 0, &mut kv, ctx, engine, true) {
        Ok(v) => v,
        Err(e) => {
            return Err(e);
        },
    };
    let bits: Vec<u32> = bits_of(&chooser.math.to_bits, logits.as_slice());
    assert(sampler::are_logit_bits(chooser.choice(), logits@, bits@));
    let token: u32 = pick_language(bits.as_slice());
    assert(detected_by(
        *ctx,
        *engine,
        chooser.choice(),
        *special,
        token,
        fresh,
        kv@,
        logits@,
        bits@,
    ));
    Ok(token)
}

/// The tokens that condition the output: those of the previous chunk, then those of the initial
/// prompt.
pub open spec fn initial_tokens(opts: TranscribeOptions<'_>, vocab: Seq<VocabEntry>) -> Seq<u32> {
    (match opts.previous_tokens {
        Some(p) => p@,
        None => Seq::empty(),
    }) + (match opts.initial_prompt {
        Some(t) => prompt::encoded(vstd::utf8::encode_utf8(t@), prompt::text_bytes(vocab)),
        None => Seq::empty(),
    })
}

/// Executable form of [`initial_tokens`].
pub fn get_initial_tokens(opts: &TranscribeOptions<'_>, vocab: &[VocabEntry]) -> (r: Vec<u32>)
    ensures
        r@ == initial_tokens(*opts, vocab@),
{
    let mut r: Vec<u32> = match opts.previous_tokens {
        Some(p) => slice_to_vec(p),
        None => Vec::new(),
    };
    if let Some(text) = opts.initial_prompt {
        let mut more: Vec<u32> = encode_prompt_text(text, vocab);
        r.append(&mut more);
    }
    assert(r@ =~= initial_tokens(*opts, vocab@));
    r
}

/// The language token and the language that is reported: a given language gives its token and
/// is not reported, else the detected one is.
pub open spec fn is_language<
    T: Add<Output = T> + Sub<Output = T> + Mul<Output = T>,
    M: Fn(T, T) -> T,
    E: Fn(T) -> T,
    R: Fn(T) -> T,
    Z: Fn(T) -> u32,
    V: Fn(u32) -> T,
    K: Fn(Op<T>) -> Result<Vec<T>, String>,
>(
    ctx: ForwardCtx<T>,
    engine: Engine<T, M, E, R, Z, V, K>,
    choice: Choice<T>,
    special: SpecialTokens,
    language: Option<&str>,
    token: u32,
    reported: Option<Seq<char>>,
) -> bool {
    match language {
        Some(l) => token == crate::languages::token_of(l@) && reported is None,
        None => is_detected(ctx, engine, choice, special, token) && reported == Some(
            crate::languages::code_of(token),
        ),
    }
}

/// The model of an optional string.
pub open spec fn text_view(s: Option<String>) -> Option<Seq<char>> {
    match s {
        Some(t) => Some(t@),
        None => None,
    }
}

/// The strategy that the options ask for: sampling above temperature zero, else greedy decoding
/// for at most one beam, else (`None`) a beam search.
pub open spec fn strategy_of(opts: TranscribeOptions<'_>) -> Option<Strategy> {
    if crate::bits::above(opts.temperature, 0) {
        Some(
            Strategy::Sample(
                Sampling { temperature: opts.temperature, top_k: opts.top_k, top_p: opts.top_p },
            ),
        )
    } else if opts.beam_width <= 1 {
        Some(Strategy::Greedy)
    } else {
        None
    }
}

/// The suppressed tokens of the options.
pub open spec fn suppressed(opts: TranscribeOptions<'_>) -> Seq<u32> {
    match opts.suppress_tokens {
        Some(s) => s@,
        None => Seq::empty(),
    }
}

/// The rules of the options.
pub open spec fn rules_for(
    opts: TranscribeOptions<'_>,
    hp: Hparams,
    prompt_len: int,
    strategy: Strategy,
) -> sampler::Rules {
    sampler::Rules {
        suppress: suppressed(opts),
        ngram: opts.no_repeat_ngram_size as nat,
        special: crate::tokenizer::multilingual(),
        eot_threshold: crate::decode_utils::threshold(
            opts.timestamps,
            crate::tokenizer::multilingual(),
        ),
        prompt_len,
        n_text_ctx: hp.n_text_ctx as int,
        strategy,
    }
}

/// The number of cache positions for a prompt.
pub open spec fn capacity_for(prompt_len: int) -> int {
    prompt_len + MAX_DECODE_LENGTH + 4
}

/// `job` is the beam search behind a prompt that the options ask for.
pub open spec fn is_beam_job<T>(
    job: BeamJob<T>,
    opts: TranscribeOptions<'_>,
    prompt: Seq<u32>,
) -> bool {
    &&& job.prompt@ == prompt
    &&& job.kv_capacity == capacity_for(prompt.len() as int)
    &&& job.special == crate::tokenizer::multilingual()
    &&& job.beam_width == opts.beam_width
    &&& job.eot_threshold == crate::decode_utils::threshold(opts.timestamps, job.special)
    &&& job.suppress@ == suppressed(opts)
    &&& job.no_repeat_ngram_size == opts.no_repeat_ngram_size
}

/// `d` is the outcome of decoding in the context `ctx` with the language token `token`.
pub open spec fn is_outcome<
    T: Add<Output = T> + Sub<Output = T> + Mul<Output = T>,
    M: Fn(T, T) -> T,
    E: Fn(T) -> T,
    R: Fn(T) -> T,
    Z: Fn(T) -> u32,
    V: Fn(u32) -> T,
    K: Fn(Op<T>) -> Result<Vec<T>, String>,
>(
    ctx: ForwardCtx<T>,
    engine: Engine<T, M, E, R, Z, V, K>,
    choice: Choice<T>,
    opts: TranscribeOptions<'_>,
    hp: Hparams,
    vocab: Seq<VocabEntry>,
    token: u32,
    d: Decoded<T>,
) -> bool {
    let special = crate::tokenizer::multilingual();
    let p = prompt::prompt_of(special, token, opts.timestamps, initial_tokens(opts, vocab));
    let reported = match d {
        Decoded::Done(o) => text_view(o.detected_language),
        Decoded::Beam(job) => text_view(job.detected_language),
    };
    &&& is_language(ctx, engine, choice, special, opts.language, token, reported)
    &&& match (strategy_of(opts), d) {
        (Some(strategy), Decoded::Done(o)) => sampler::is_generated(
            ctx,
            engine,
            choice,
            rules_for(opts, hp, p.len() as int, strategy),
            p,
            capacity_for(p.len() as int),
            o.tokens@,
            o.token_probs@,
        ),
        (None, Decoded::Beam(job)) => {
            &&& job.ctx == ctx
            &&& is_beam_job(job, opts, p)
        },
        _ => false,
    }
}

/// `d` is the outcome of decoding in the context `ctx` with some language token.
pub open spec fn is_decoded<
    T: Add<Output = T> + Sub<Output = T> + Mul<Output = T>,
    M: Fn(T, T) -> T,
    E: Fn(T) -> T,
    R: Fn(T) -> T,
    Z: Fn(T) -> u32,
    V: Fn(u32) -> T,
    K: Fn(Op<T>) -> Result<Vec<T>, String>,
>(
    ctx: ForwardCtx<T>,
    engine: Engine<T, M, E, R, Z, V, K>,
    choice: Choice<T>,
    opts: TranscribeOptions<'_>,
    hp: Hparams,
    vocab: Seq<VocabEntry>,
    d: Decoded<T>,
) -> bool {
    exists|token: u32| #[trigger] is_outcome(ctx, engine, choice, opts, hp, vocab, token, d)
}

/// Decoding in the context `ctx` fails with the message `e`: while the language is detected, or
/// behind the prompt of its token while the output is generated.
pub open spec fn decoding_fails<
    T: Add<Output = T> + Sub<Output = T> + Mul<Output = T>,
    M: Fn(T, T) -> T,
    E: Fn(T) -> T,
    R: Fn(T) -> T,
    Z: Fn(T) -> u32,
    V: Fn(u32) -> T,
    K: Fn(Op<T>) -> Result<Vec<T>, String>,
>(
    ctx: ForwardCtx<T>,
    engine: Engine<T, M, E, R, Z, V, K>,
    choice: Choice<T>,
    opts: TranscribeOptions<'_>,
    hp: Hparams,
    vocab: Seq<VocabEntry>,
    e: Seq<char>,
) -> bool {
    ||| opts.language is None && detection_fails(
        ctx,
        engine,
        crate::tokenizer::multilingual(),
        e,
    )
    ||| exists|token: u32| #[trigger]
        generation_fails(ctx, engine, choice, opts, hp, vocab, token, e)
}

/// The generation of the output behind the prompt of the language token `token` breaks off with
/// the message `e`.
pub open spec fn generation_fails<
    T: Add<Output = T> + Sub<Output = T> + Mul<Output = T>,
    M: Fn(T, T) -> T,
    E: Fn(T) -> T,
    R: Fn(T) -> T,
    Z: Fn(T) -> u32,
    V: Fn(u32) -> T,
    K: Fn(Op<T>) -> Result<Vec<T>, String>,
>(
    ctx: ForwardCtx<T>,
    engine: Engine<T, M, E, R, Z, V, K>,
    choice: Choice<T>,
    opts: TranscribeOptions<'_>,
    hp: Hparams,
    vocab: Seq<VocabEntry>,
    token: u32,
    e: Seq<char>,
) -> bool {
    let special = crate::tokenizer::multilingual();
    let p = prompt::prompt_of(special, token, opts.timestamps, initial_tokens(opts, vocab));
    &&& strategy_of(opts) is Some
    &&& exists|reported: Option<Seq<char>>| #[trigger]
        is_language(ctx, engine, choice, special, opts.language, token, reported)
    &&& sampler::is_broken_off(
        ctx,
        engine,
        choice,
        rules_for(opts, hp, p.len() as int, strategy_of(opts)->0),
        p,
        capacity_for(p.len() as int),
        e,
    )
}

/// The language token and the language to report.
fn settle_language<
    T: Copy + Add<Output = T> + Sub<Output = T> + Mul<Output = T> + Div<Output = T>,
    M: Fn(T, T) -> T,
    E: Fn(T) -> T,
    R: Fn(T) -> T,
    Z: Fn(T) -> u32,
    V: Fn(u32) -> T,
    K: Fn(Op<T>) -> Result<Vec<T>, String>,
    X: Fn(T, T) -> T,
    Y: Fn(T) -> T,
    N: Fn(T) -> T,
    B: Fn(T) -> u32,
    G: Fn(T, T) -> bool,
    L: Fn(T, T) -> bool,
    F: Fn(u32) -> T,
    U: Fn() -> T,
>(
    ctx: &ForwardCtx<T>,
    engine: &Engine<T, M, E, R, Z, V, K>,
    chooser: &Chooser<T, X, Y, N, B, G, L, F, U>,
    special: &SpecialTokens,
    language: Option<&str>,
) -> (r: Result<(u32, Option<String>), String>)
    requires
        ctx.wf(),
        engine.ready(),
        chooser.total(),
        ctx.n_head * DETECT_CAPACITY <= usize::MAX,
        (ctx.n_head * DETECT_CAPACITY) * ctx.head_dim <= usize::MAX,
    ensures
        match r {
            Ok(l) => is_language(
                *ctx,
                *engine,
                chooser.choice(),
                *special,
                language,
                l.0,
                text_view(l.1),
            ),
            Err(e) => language is None && detection_fails(*ctx, *engine, *special, e@),
        },
{
    match language {
        Some(lang) => Ok((special.language_token(lang), None)),
        None => {
            match detect_language(ctx, engine, chooser, special) {
                Ok(token) => Ok((token, Some(language_code_from_token(token)))),
                Err(e) => Err(e),
            }
        },
    }
}

/// Decodes a prompt by the strategy that the options ask for.
fn decode_prompt<
    T: Copy + Add<Output = T> + Sub<Output = T> + Mul<Output = T> + Div<Output = T>,
    M: Fn(T, T) -> T,
    E: Fn(T) -> T,
    R: Fn(T) -> T,
    Z: Fn(T) -> u32,
    V: Fn(u32) -> T,
    K: Fn(Op<T>) -> Result<Vec<T>, String>,
    X: Fn(T, T) -> T,
    Y: Fn(T) -> T,
    N: Fn(T) -> T,
    B: Fn(T) -> u32,
    G: Fn(T, T) -> bool,
    L: Fn(T, T) -> bool,
    F: Fn(u32) -> T,
    U: Fn() -> T,
>(
    ctx: ForwardCtx<T>,
    hp: &Hparams,
    opts: &TranscribeOptions<'_>,
    engine: &Engine<T, M, E, R, Z, V, K>,
    chooser: &Chooser<T, X, Y, N, B, G, L, F, U>,
    special: &SpecialTokens,
    prompt: Vec<u32>,
    detected_language: Option<String>,
) -> (r: Result<Decoded<T>, String>)
    requires
        *special == crate::tokenizer::multilingual(),
        sampler::can_decode(
            ctx,
            *engine,
            prompt@,
            capacity_for(prompt@.len() as int),
        ),
        chooser.total(),
    ensures
        match r {
            Ok(Decoded::Done(o)) => {
                &&& strategy_of(*opts) is Some
                &&& text_view(o.detected_language) == text_view(detected_language)
                &&& sampler::is_generated(
                    ctx,
                    *engine,
                    chooser.choice(),
                    rules_for(*opts, *hp, prompt@.len() as int, strategy_of(*opts)->0),
                    prompt@,
                    capacity_for(prompt@.len() as int),
                    o.tokens@,
                    o.token_probs@,
                )
            },
            Ok(Decoded::Beam(job)) => {
                &&& strategy_of(*opts) is None
                &&& text_view(job.detected_language) == text_view(detected_language)
                &&& job.ctx == ctx
                &&& is_beam_job(job, *opts, prompt@)
            },
            Err(e) => strategy_of(*opts) is Some && sampler::is_broken_off(
                ctx,
                *engine,
                chooser.choice(),
                rules_for(*opts, *hp, prompt@.len() as int, strategy_of(*opts)->0),
                prompt@,
                capacity_for(prompt@.len() as int),
                e@,
            ),
        },
{
    let kv_capacity: usize = prompt.len() + MAX_DECODE_LENGTH + 4;
    let eot_threshold: u32 = get_threshold(opts.timestamps, special);
    let empty: [u32; 0] = [];
    let constraints = DecodeConstraints {
        suppress: match opts.suppress_tokens {
            Some(s) => s,
            None => empty.as_slice(),
        },
        no_repeat_ngram_size: opts.no_repeat_ngram_size,
    };
    assert(constraints.suppress@ =~= suppressed(*opts));
    if crate::bits::is_above(opts.temperature, 0) {
        return match decode_sample(
            prompt.as_slice(),
            kv_capacity,
            &ctx,
            engine,
            chooser,
            special,
            eot_threshold,
            &constraints,
            hp.n_text_ctx,
            Sampling { temperature: opts.temperature, top_k: opts.top_k, top_p: opts.top_p },
        ) {
            Ok((tokens, token_probs)) => Ok(
                Decoded::Done(DecodeResult { tokens, token_probs, detected_language }),
            ),
            Err(e) => Err(e),
        };
    }
    if opts.beam_width <= 1 {
        return match decode_greedy(
            prompt.as_slice(),
            kv_capacity,
            &ctx,
            engine,
            chooser,
            special,
            eot_threshold,
            &constraints,
            hp.n_text_ctx,
        ) {
            Ok((tokens, token_probs)) => Ok(
                Decoded::Done(DecodeResult { tokens, token_probs, detected_language }),
            ),
            Err(e) => Err(e),
        };
    }
    Ok(
        Decoded::Beam(
            BeamJob {
                ctx,
                prompt,
                kv_capacity,
                special: *special,
                beam_width: opts.beam_width,
                eot_threshold,
                suppress: slice_to_vec(constraints.suppress),
                no_repeat_ngram_size: opts.no_repeat_ngram_size,
                detected_language,
            },
        ),
    )
}

/// `d` is what decoding an encoder output with a model and options gives: its outcome in the context of
/// the encoder output, with the scale of the head size.
pub open spec fn is_decode<
    T: Add<Output = T> + Sub<Output = T> + Mul<Output = T>,
    M: Fn(T, T) -> T,
    E: Fn(T) -> T,
    R: Fn(T) -> T,
    Z: Fn(T) -> u32,
    V: Fn(u32) -> T,
    K: Fn(Op<T>) -> Result<Vec<T>, String>,
    A: Fn(String) -> Result<Table<T>, String>,
    C: Fn(usize) -> T,
    S: Fn(T) -> T,
    I: Fn(T) -> T,
>(
    encoder: Seq<T>,
    enc_len: usize,
    hp: Hparams,
    vocab: Seq<VocabEntry>,
    opts: TranscribeOptions<'_>,
    engine: Engine<T, M, E, R, Z, V, K>,
    choice: Choice<T>,
    tables: A,
    scale_math: ScaleMath<C, S, I>,
    d: Decoded<T>,
) -> bool {
    exists|ctx: ForwardCtx<T>| #[trigger]
        is_decoded(ctx, engine, choice, opts, hp, vocab, d) && is_context(
            engine.kernel,
            tables,
            encoder,
            enc_len,
            hp,
            ctx.scale,
            ctx,
        ) && is_scale(scale_math, ctx.head_dim, ctx.scale)
}

/// Run the text decoder with KV cache for efficient autoregressive decoding.
///
/// Precomputes the cross-attention keys and values, settles the language, builds the prompt and
/// decodes by the strategy that the options ask for.
pub fn decode<
    T: Copy + Add<Output = T> + Sub<Output = T> + Mul<Output = T> + Div<Output = T>,
    M: Fn(T, T) -> T,
    E: Fn(T) -> T,
    R: Fn(T) -> T,
    Z: Fn(T) -> u32,
    V: Fn(u32) -> T,
    K: Fn(Op<T>) -> Result<Vec<T>, String>,
    X: Fn(T, T) -> T,
    Y: Fn(T) -> T,
    N: Fn(T) -> T,
    B: Fn(T) -> u32,
    G: Fn(T, T) -> bool,
    L: Fn(T, T) -> bool,
    F: Fn(u32) -> T,
    U: Fn() -> T,
    A: Fn(String) -> Result<Table<T>, String>,
    C: Fn(usize) -> T,
    S: Fn(T) -> T,
    I: Fn(T) -> T,
>(
    encoder_output: &[T],
    enc_len: usize,
    hp: &Hparams,
    vocab: &[VocabEntry],
    opts: &TranscribeOptions<'_>,
    engine: &Engine<T, M, E, R, Z, V, K>,
    chooser: &Chooser<T, X, Y, N, B, G, L, F, U>,
    tables: &A,
    scale_math: &ScaleMath<C, S, I>,
) -> (r: Result<Decoded<T>, String>)
    requires
        engine.ready(),
        chooser.total(),
        scale_math.total::<T>(),
        tables_sound(*tables, hp.n_text_state as int),
        sizes_fit(*hp, enc_len),
        hp.n_text_head * capacity_for(initial_tokens(*opts, vocab@).len() as int + 6) <= usize::MAX,
        hp.n_text_state * capacity_for(initial_tokens(*opts, vocab@).len() as int + 6)
            <= usize::MAX,
    ensures
        match r {
            Ok(d) => exists|ctx: ForwardCtx<T>| #[trigger]
                is_decoded(ctx, *engine, chooser.choice(), *opts, *hp, vocab@, d) && is_context(
                    engine.kernel,
                    *tables,
                    encoder_output@,
                    enc_len,
                    *hp,
                    ctx.scale,
                    ctx,
                ) && is_scale(*scale_math, ctx.head_dim, ctx.scale),
            Err(e) => prepare_fails(
                engine.kernel,
                *tables,
                encoder_output@,
                enc_len,
                *hp,
                e@,
            ) || exists|ctx: ForwardCtx<T>| #[trigger]
                decoding_fails(ctx, *engine, chooser.choice(), *opts, *hp, vocab@, e@)
                    && is_context(
                    engine.kernel,
                    *tables,
                    encoder_output@,
                    enc_len,
                    *hp,
                    ctx.scale,
                    ctx,
                ) && is_scale(*scale_math, ctx.head_dim, ctx.scale),
        },
        r is Ok ==> is_decode(
            encoder_output@,
            enc_len,
            *hp,
            vocab@,
            *opts,
            *engine,
            chooser.choice(),
            *tables,
            *scale_math,
            r->Ok_0,
        ),
{
    let special: SpecialTokens = SpecialTokens::new(hp.n_vocab);
    let scale: T = get_scale(scale_math, hp.n_text_state / hp.n_text_head);
    let ctx: ForwardCtx<T> = match prepare(
        &engine.kernel,
        tables,
        encoder_output,
        enc_len,
        hp,
        scale,
    ) {
        Ok(c) => c,
        Err(e) => {
            return Err(e);
        },
    };
    let ghost limit = capacity_for(initial_tokens(*opts, vocab@).len() as int + 6);
    proof {
        lemma_capacity(
            ctx.n_head as int,
            ctx.head_dim as int,
            ctx.n_state as int,
            limit,
            DETECT_CAPACITY as int,
        );
    }
    let (lang_token, detected_language) = match settle_language(
        &ctx,
        engine,
        chooser,
        &special,
        opts.language,
    ) {
        Ok(l) => l,
        Err(e) => {
            assert(decoding_fails(ctx, *engine, chooser.choice(), *opts, *hp, vocab@, e@));
            return Err(e);
        },
    };
    let ghost reported = text_view(detected_language);
    assert(is_language(
        ctx,
        *engine,
        chooser.choice(),
        special,
        opts.language,
        lang_token,
        reported,
    ));
    let initial: Vec<u32> = get_initial_tokens(opts, vocab);
    let prompt: Vec<u32> = build_prompt(&special, lang_token, opts.timestamps, initial.as_slice());
    proof {
        assert(1 * limit <= ctx.n_head * limit) by (nonlinear_arith)
            requires
                ctx.n_head >= 1,
                limit >= 0,
        ;
        lemma_capacity(
            ctx.n_head as int,
            ctx.head_dim as int,
            ctx.n_state as int,
            limit,
            capacity_for(prompt@.len() as int),
        );
    }
    let ghost given = ctx;
    let r: Result<Decoded<T>, String> = decode_prompt(
        ctx,
        hp,
        opts,
        engine,
        chooser,
        &special,
        prompt,
        detected_language,
    );
    proof {
        if r is Ok {
            assert(is_outcome(
                given,
                *engine,
                chooser.choice(),
                *opts,
                *hp,
                vocab@,
                lang_token,
                r->Ok_0,
            ));
            assert(is_decoded(given, *engine, chooser.choice(), *opts, *hp, vocab@, r->Ok_0));
        } else {
            let e = r->Err_0@;
            assert(generation_fails(
                given,
                *engine,
                chooser.choice(),
                *opts,
                *hp,
                vocab@,
                lang_token,
                e,
            ));
            assert(decoding_fails(given, *engine, chooser.choice(), *opts, *hp, vocab@, e));
        }
    }
    r
}

/// Sizes below a limit that fits.
proof fn lemma_capacity(n_head: int, head_dim: int, n_state: int, limit: int, capacity: int)
    requires
        0 <= n_head,
        0 <= head_dim,
        n_state == n_head * head_dim,
        0 <= capacity <= limit,
        n_head * limit <= usize::MAX,
        n_state * limit <= usize::MAX,
    ensures
        n_head * capacity <= usize::MAX,
        (n_head * capacity) * head_dim <= usize::MAX,
{
    assert(n_head * capacity <= n_head * limit) by (nonlinear_arith)
        requires
            0 <= n_head,
            capacity <= limit,
    ;
    assert((n_head * capacity) * head_dim == (n_head * head_dim) * capacity) by (nonlinear_arith);
    assert(n_state * capacity <= n_state * limit) by (nonlinear_arith)
        requires
            0 <= n_state,
            capacity <= limit,
    ;
    assert(0 <= n_head * head_dim) by (nonlinear_arith)
        requires
            0 <= n_head,
            0 <= head_dim,
    ;
}

} // verus!
