//! One decoder forward pass.
//!
//! Matrix kernels (layer norm, linear layers, activation) are the caller's. What this module
//! fixes is which kernel runs on which values and weights, and everything between the kernels:
//! embedding, KV cache, attention, residual connections.

use crate::decoder::attention::{
    scaled_dot_product_cached, scaled_dot_product_flat, to_head_first, AttnMath, CachedSdpaConfig,
};
use crate::decoder::kv_cache::LayerKVCache;
use core::ops::{Add, Mul, Sub};
use vstd::prelude::*;
use vstd::slice::slice_to_vec;
use vstd::string::*;

verus! {

/// Bit pattern of what a layer norm adds to the variance, 1e-5.
pub const EPSILON_BITS: u32 = 0x3727_C5AC;

/// A call of a matrix kernel. Weights are given by name.
pub enum Op<T> {
    /// Layer norm of the rows of `x`.
    LayerNorm {
        /// Input.
        x: Vec<T>,
        /// Weight.
        weight: String,
        /// Bias.
        bias: String,
        /// Bit pattern of what is added to the variance.
        epsilon: u32,
    },
    /// Linear layer on the rows of `x`. The output has rows of `width` elements, or as many as
    /// the weight gives.
    Linear {
        /// Input.
        x: Vec<T>,
        /// Number of rows.
        rows: usize,
        /// Weight.
        weight: String,
        /// Bias.
        bias: Option<String>,
        /// Width of the output.
        width: Option<usize>,
    },
    /// Activation of every element of `x`.
    Gelu {
        /// Input.
        x: Vec<T>,
    },
}

/// Model of [`Op`].
#[verifier::ext_equal]
pub enum OpView<T> {
    /// Layer norm: input, weight, bias, bit pattern of what is added to the variance.
    LayerNorm(Seq<T>, Seq<char>, Seq<char>, u32),
    /// Linear layer: input, number of rows, weight, bias, width of the output.
    Linear(Seq<T>, int, Seq<char>, Option<Seq<char>>, Option<int>),
    /// Activation: input.
    Gelu(Seq<T>),
}

impl<T> View for Op<T> {
    type V = OpView<T>;

    open spec fn view(&self) -> OpView<T> {
        match self {
            Op::LayerNorm { x, weight, bias, epsilon } => OpView::LayerNorm(
                x@,
                weight@,
                bias@,
                *epsilon,
            ),
            Op::Linear { x, rows, weight, bias, width } => OpView::Linear(
                x@,
                *rows as int,
                weight@,
                match bias {
                    Some(b) => Some(b@),
                    None => None,
                },
                match width {
                    Some(w) => Some(*w as int),
                    None => None,
                },
            ),
            Op::Gelu { x } => OpView::Gelu(x@),
        }
    }
}

/// `out` has the size that the output of an operation has.
pub open spec fn fits<T>(op: OpView<T>, out: Seq<T>) -> bool {
    match op {
        OpView::LayerNorm(x, _, _, _) => out.len() == x.len(),
        OpView::Linear(_, rows, _, _, Some(width)) => out.len() == rows * width,
        OpView::Linear(_, _, _, _, None) => true,
        OpView::Gelu(x) => out.len() == x.len(),
    }
}

/// The kernels accept every operation, and their outputs have the right size.
pub open spec fn sound<T, K: Fn(Op<T>) -> Result<Vec<T>, String>>(kernel: K) -> bool {
    &&& forall|op: Op<T>| #[trigger] call_requires(kernel, (op,))
    &&& forall|op: Op<T>, r: Result<Vec<T>, String>| #[trigger]
        call_ensures(kernel, (op,), r) && r is Ok ==> fits(op@, r->Ok_0@)
}

/// `out` is what the kernels gave for `op`.
pub open spec fn gives<T, K: Fn(Op<T>) -> Result<Vec<T>, String>>(
    kernel: K,
    op: OpView<T>,
    out: Seq<T>,
) -> bool {
    exists|o: Op<T>, r: Result<Vec<T>, String>| #[trigger]
        call_ensures(kernel, (o,), r) && o@ == op && r is Ok && r->Ok_0@ == out
}

/// The kernels failed on `op` with the message `e`.
pub open spec fn fails_on<T, K: Fn(Op<T>) -> Result<Vec<T>, String>>(
    kernel: K,
    op: OpView<T>,
    e: Seq<char>,
) -> bool {
    exists|o: Op<T>, r: Result<Vec<T>, String>| #[trigger]
        call_ensures(kernel, (o,), r) && o@ == op && r is Err && r->Err_0@ == e
}

/// Runs an operation.
pub fn run<T, K: Fn(Op<T>) -> Result<Vec<T>, String>>(kernel: &K, op: Op<T>) -> (r: Result<
    Vec<T>,
    String,
>)
    requires
        sound(*kernel),
    ensures
        match r {
            Ok(out) => gives(*kernel, op@, out@) && fits(op@, out@),
            Err(e) => fails_on(*kernel, op@, e@),
        },
{
    let ghost given = op;
    let r: Result<Vec<T>, String> = kernel(op);
    assert(call_ensures(*kernel, (given,), r));
    r
}

/// The numeric functions and the kernels that a forward pass rests on.
pub struct Engine<T, M, E, R, Z, V, K> {
    /// Functions of numbers.
    pub attn: AttnMath<T, M, E, R, Z, V>,
    /// Matrix kernels.
    pub kernel: K,
}

/// The name of a weight of a decoder block.
pub open spec fn block_name(layer: nat, part: Seq<char>) -> Seq<char> {
    "decoder.blocks."@ + crate::text::decimal_nat(layer) + part
}

/// Executable form of [`block_name`].
pub fn get_block_name(layer: usize, part: &str) -> (s: String)
    ensures
        s@ == block_name(layer as nat, part@),
{
    let mut s: String = "decoder.blocks.".to_string();
    crate::text::append_decimal_nat(&mut s, layer as u64);
    s.append(part);
    s
}

/// Read-only context passed to every `forward()` call.
pub struct ForwardCtx<T> {
    /// Head-first cross-attention keys of every layer.
    pub cross_k: Vec<Vec<T>>,
    /// Head-first cross-attention values of every layer.
    pub cross_v: Vec<Vec<T>>,
    /// Number of encoder positions.
    pub enc_len: usize,
    /// Token embeddings, one row per token.
    pub tok_emb: Vec<T>,
    /// Number of rows of `tok_emb`.
    pub n_vocab: usize,
    /// Positional embeddings, one row per position.
    pub pos_emb: Vec<T>,
    /// Number of rows of `pos_emb`.
    pub n_ctx: usize,
    /// Hidden state size.
    pub n_state: usize,
    /// Number of layers.
    pub n_layer: usize,
    /// Number of attention heads.
    pub n_head: usize,
    /// Elements per head.
    pub head_dim: usize,
    /// One over the square root of the head dimension.
    pub scale: T,
}

impl<T> ForwardCtx<T> {
    /// The parts have the sizes that they belong to.
    pub open spec fn wf(&self) -> bool {
        &&& self.n_state == self.n_head * self.head_dim
        &&& self.n_head * self.enc_len <= usize::MAX
        &&& self.cross_k@.len() >= self.n_layer
        &&& self.cross_v@.len() >= self.n_layer
        &&& forall|l: int|
            0 <= l < self.n_layer ==> (#[trigger] self.cross_k@[l])@.len() == (self.n_head
                * self.enc_len) * self.head_dim
        &&& forall|l: int|
            0 <= l < self.n_layer ==> (#[trigger] self.cross_v@[l])@.len() == (self.n_head
                * self.enc_len) * self.head_dim
        &&& self.n_vocab * self.n_state <= self.tok_emb@.len()
        &&& self.n_ctx * self.n_state <= self.pos_emb@.len()
    }
}

/// Every layer has a cache of the context's shape with room for `n` more positions.
pub open spec fn caches_have_room<T>(
    kv: Seq<LayerKVCache<T>>,
    ctx: ForwardCtx<T>,
    n: int,
) -> bool {
    &&& kv.len() == ctx.n_layer
    &&& forall|l: int|
        0 <= l < kv.len() ==> {
            &&& cache_at(#[trigger] kv[l], ctx, kv[l].seq_len as int, kv[l].capacity as int)
            &&& kv[l].seq_len + n <= kv[l].capacity
        }
}

/// Every layer's cache has `n` more positions filled.
pub open spec fn caches_grown<T>(
    kv: Seq<LayerKVCache<T>>,
    ctx: ForwardCtx<T>,
    n: int,
    kv2: Seq<LayerKVCache<T>>,
) -> bool {
    &&& kv2.len() == kv.len()
    &&& forall|l: int|
        0 <= l < kv.len() ==> cache_at(
            #[trigger] kv2[l],
            ctx,
            kv[l].seq_len + n,
            kv[l].capacity as int,
        )
}

/// A cache of the context's shape has `capacity` positions, `len` of them filled.
pub open spec fn cache_at<T>(
    kv: LayerKVCache<T>,
    ctx: ForwardCtx<T>,
    len: int,
    capacity: int,
) -> bool {
    &&& kv.wf()
    &&& kv.n_head == ctx.n_head
    &&& kv.head_dim == ctx.head_dim
    &&& kv.seq_len == len
    &&& kv.capacity == capacity
}

/// The embedding of a token: its row, zeros if it has none.
pub open spec fn token_row<T>(ctx: ForwardCtx<T>, zero: T, token: u32) -> Seq<T> {
    if token < ctx.n_vocab {
        crate::rows::row(ctx.tok_emb@, ctx.n_state as int, token as int)
    } else {
        Seq::new(ctx.n_state as nat, |i: int| zero)
    }
}

/// `x` is the input row of a token at a position: its embedding, plus that of the position if
/// it has one.
pub open spec fn is_input_row<T: Add<Output = T>>(
    ctx: ForwardCtx<T>,
    zero: T,
    token: u32,
    pos: int,
    x: Seq<T>,
) -> bool {
    let base = token_row(ctx, zero, token);
    if pos < ctx.n_ctx {
        are_sums(base, crate::rows::row(ctx.pos_emb@, ctx.n_state as int, pos), x)
    } else {
        x == base
    }
}

/// `r` holds the sums of `a` and `b`, place by place.
pub open spec fn are_sums<T: Add<Output = T>>(a: Seq<T>, b: Seq<T>, r: Seq<T>) -> bool {
    &&& r.len() == a.len()
    &&& forall|i: int| 0 <= i < r.len() ==> crate::num::is_sum(a[i], b[i], #[trigger] r[i])
}

/// `x` holds the input rows of `tokens`, the first at position `start`.
pub open spec fn is_input<T: Add<Output = T>>(
    ctx: ForwardCtx<T>,
    zero: T,
    tokens: Seq<u32>,
    start: int,
    x: Seq<T>,
) -> bool {
    &&& x.len() == tokens.len() * ctx.n_state
    &&& forall|i: int|
        0 <= i < tokens.len() ==> is_input_row(
            ctx,
            zero,
            tokens[i],
            start + i,
            #[trigger] crate::rows::row(x, ctx.n_state as int, i),
        )
}

/// The sums of `a` and `b`, place by place.
fn add_rows<T: Copy + Add<Output = T>>(a: &[T], b: &[T]) -> (r: Vec<T>)
    requires
        a@.len() == b@.len(),
        crate::num::total_add::<T>(),
    ensures
        are_sums(a@, b@, r@),
{
    let mut r: Vec<T> = Vec::with_capacity(a.len());
    let mut i: usize = 0;
    while i < a.len()
        invariant
            i <= a@.len(),
            a@.len() == b@.len(),
            crate::num::total_add::<T>(),
            r@.len() == i,
            forall|j: int| 0 <= j < i ==> crate::num::is_sum(a@[j], b@[j], #[trigger] r@[j]),
        decreases a@.len() - i,
    {
        r.push(a[i] + b[i]);
        i = i + 1;
    }
    r
}

/// Token and positional embedding.
pub fn embed<T: Copy + Add<Output = T>>(
    ctx: &ForwardCtx<T>,
    zero: T,
    tokens: &[u32],
    start_pos: usize,
) -> (x: Vec<T>)
    requires
        ctx.wf(),
        start_pos + tokens@.len() <= usize::MAX,
        crate::num::total_add::<T>(),
    ensures
        is_input(*ctx, zero, tokens@, start_pos as int, x@),
{
    let n_state: usize = ctx.n_state;
    let ghost width = n_state as int;
    let mut x: Vec<T> = Vec::new();
    let mut i: usize = 0;
    assert(0 * width == 0) by (nonlinear_arith);
    while i < tokens.len()
        invariant
            i <= tokens@.len(),
            ctx.wf(),
            n_state == ctx.n_state,
            width == n_state,
            start_pos + tokens@.len() <= usize::MAX,
            crate::num::total_add::<T>(),
            x@.len() == i * width,
            forall|j: int|
                0 <= j < i ==> is_input_row(
                    *ctx,
                    zero,
                    tokens@[j],
                    start_pos + j,
                    #[trigger] crate::rows::row(x@, width, j),
                ),
        decreases tokens@.len() - i,
    {
        let token: u32 = tokens[i];
        let base: Vec<T> = if (token as usize) < ctx.n_vocab {
            slice_to_vec(
                crate::rows::get_row(
                    ctx.tok_emb.as_slice(),
                    n_state,
                    token as usize,
                    Ghost(ctx.n_vocab as int),
                ),
            )
        } else {
            crate::rows::filled(n_state, zero)
        };
        assert(base@ == token_row(*ctx, zero, token));
        let pos: usize = start_pos + i;
        let row: Vec<T> = if pos < ctx.n_ctx {
            add_rows(
                base.as_slice(),
                crate::rows::get_row(ctx.pos_emb.as_slice(), n_state, pos, Ghost(ctx.n_ctx as int)),
            )
        } else {
            base
        };
        assert(is_input_row(*ctx, zero, token, pos as int, row@));
        crate::rows::push_row(&mut x, n_state, row.as_slice(), Ghost(i as int));
        i = i + 1;
    }
    x
}

impl<
    T,
    M: Fn(T, T) -> T,
    E: Fn(T) -> T,
    R: Fn(T) -> T,
    Z: Fn(T) -> u32,
    V: Fn(u32) -> T,
    K: Fn(Op<T>) -> Result<Vec<T>, String>,
> Engine<T, M, E, R, Z, V, K> {
    /// The functions accept every number, and the kernels are sound.
    pub open spec fn ready(&self) -> bool {
        self.attn.total() && sound(self.kernel)
    }
}

/// The operation of a linear layer of a block with a bias.
pub open spec fn biased<T>(
    layer: nat,
    x: Seq<T>,
    rows: int,
    part: Seq<char>,
    bias: Seq<char>,
    width: Option<int>,
) -> OpView<T> {
    OpView::Linear(x, rows, block_name(layer, part), Some(block_name(layer, bias)), width)
}

/// The operation of a linear layer of a block without a bias.
pub open spec fn unbiased<T>(
    layer: nat,
    x: Seq<T>,
    rows: int,
    part: Seq<char>,
    width: int,
) -> OpView<T> {
    OpView::Linear(x, rows, block_name(layer, part), None, Some(width))
}

/// The operation of a layer norm of a block.
pub open spec fn norm<T>(
    layer: nat,
    x: Seq<T>,
    weight: Seq<char>,
    bias: Seq<char>,
) -> OpView<T> {
    OpView::LayerNorm(x, block_name(layer, weight), block_name(layer, bias), EPSILON_BITS)
}

/// Values on the way through self-attention.
pub struct SelfTrace<T> {
    /// Normed input.
    pub normed: Seq<T>,
    /// Queries.
    pub q: Seq<T>,
    /// New keys.
    pub k: Seq<T>,
    /// New values.
    pub v: Seq<T>,
    /// Head-first queries.
    pub q_heads: Seq<T>,
    /// Attention output.
    pub attn: Seq<T>,
    /// Projected output.
    pub out: Seq<T>,
}

/// The operations of self-attention, in their order.
pub struct SelfOps<T> {
    /// Layer norm.
    pub norm: OpView<T>,
    /// Queries.
    pub query: OpView<T>,
    /// Keys.
    pub key: OpView<T>,
    /// Values.
    pub value: OpView<T>,
    /// Projection of the output.
    pub out: OpView<T>,
}

/// The operations of self-attention on `x`, whose inputs are values of `t`.
pub open spec fn self_ops<T>(
    n_state: int,
    layer: nat,
    rows: int,
    x: Seq<T>,
    t: SelfTrace<T>,
) -> SelfOps<T> {
    let n = Some(n_state);
    SelfOps {
        norm: norm(layer, x, ".attn_ln.weight"@, ".attn_ln.bias"@),
        query: biased(layer, t.normed, rows, ".attn.query.weight"@, ".attn.query.bias"@, n),
        key: unbiased(layer, t.normed, rows, ".attn.key.weight"@, n_state),
        value: biased(layer, t.normed, rows, ".attn.value.weight"@, ".attn.value.bias"@, n),
        out: biased(layer, t.attn, rows, ".attn.out.weight"@, ".attn.out.bias"@, n),
    }
}

/// The new keys and values join the cache, and the queries attend to it.
pub open spec fn self_attended<
    T: Add<Output = T> + Sub<Output = T> + Mul<Output = T>,
    M: Fn(T, T) -> T,
    E: Fn(T) -> T,
    R: Fn(T) -> T,
    Z: Fn(T) -> u32,
    V: Fn(u32) -> T,
    K: Fn(Op<T>) -> Result<Vec<T>, String>,
>(
    ctx: ForwardCtx<T>,
    engine: Engine<T, M, E, R, Z, V, K>,
    q_len: usize,
    causal_mask: bool,
    kv: LayerKVCache<T>,
    kv2: LayerKVCache<T>,
    t: SelfTrace<T>,
) -> bool {
    let rows = q_len as int;
    &&& crate::decoder::kv_cache::is_appended(kv, t.k, t.v, rows, kv2)
    &&& crate::decoder::attention::is_head_first(
        t.q,
        ctx.n_head as int,
        rows,
        ctx.head_dim as int,
        t.q_heads,
    )
    &&& crate::decoder::attention::is_cached_attention(
        engine.attn,
        t.q_heads,
        kv2,
        CachedSdpaConfig {
            n_head: ctx.n_head,
            q_len,
            kv_len: kv2.seq_len,
            head_dim: ctx.head_dim,
            past_len: kv.seq_len,
            causal_mask,
        },
        ctx.scale,
        t.attn,
    )
}

/// How self-attention of `q_len` rows leads from `x` to `y` and from the cache `kv` to `kv2`.
pub open spec fn self_attention_by<
    T: Add<Output = T> + Sub<Output = T> + Mul<Output = T>,
    M: Fn(T, T) -> T,
    E: Fn(T) -> T,
    R: Fn(T) -> T,
    Z: Fn(T) -> u32,
    V: Fn(u32) -> T,
    K: Fn(Op<T>) -> Result<Vec<T>, String>,
>(
    ctx: ForwardCtx<T>,
    engine: Engine<T, M, E, R, Z, V, K>,
    layer: nat,
    q_len: usize,
    causal_mask: bool,
    x: Seq<T>,
    kv: LayerKVCache<T>,
    kv2: LayerKVCache<T>,
    y: Seq<T>,
    t: SelfTrace<T>,
) -> bool {
    let ops = self_ops(ctx.n_state as int, layer, q_len as int, x, t);
    &&& gives(engine.kernel, ops.norm, t.normed)
    &&& gives(engine.kernel, ops.query, t.q)
    &&& gives(engine.kernel, ops.key, t.k)
    &&& gives(engine.kernel, ops.value, t.v)
    &&& self_attended(ctx, engine, q_len, causal_mask, kv, kv2, t)
    &&& gives(engine.kernel, ops.out, t.out)
    &&& are_sums(x, t.out, y)
}

/// How self-attention fails with the message `e`: at the first of its operations that the kernels
/// fail on. The cache is extended where keys and values were given.
pub open spec fn self_attention_fails_by<
    T: Add<Output = T> + Sub<Output = T> + Mul<Output = T>,
    M: Fn(T, T) -> T,
    E: Fn(T) -> T,
    R: Fn(T) -> T,
    Z: Fn(T) -> u32,
    V: Fn(u32) -> T,
    K: Fn(Op<T>) -> Result<Vec<T>, String>,
>(
    ctx: ForwardCtx<T>,
    engine: Engine<T, M, E, R, Z, V, K>,
    layer: nat,
    q_len: usize,
    causal_mask: bool,
    x: Seq<T>,
    kv: LayerKVCache<T>,
    kv2: LayerKVCache<T>,
    e: Seq<char>,
    t: SelfTrace<T>,
) -> bool {
    let ops = self_ops(ctx.n_state as int, layer, q_len as int, x, t);
    ||| fails_on(engine.kernel, ops.norm, e) && kv2 == kv
    ||| gives(engine.kernel, ops.norm, t.normed) && {
        ||| fails_on(engine.kernel, ops.query, e) && kv2 == kv
        ||| gives(engine.kernel, ops.query, t.q) && {
            ||| fails_on(engine.kernel, ops.key, e) && kv2 == kv
            ||| gives(engine.kernel, ops.key, t.k) && {
                ||| fails_on(engine.kernel, ops.value, e) && kv2 == kv
                ||| gives(engine.kernel, ops.value, t.v) && self_attended(
                    ctx,
                    engine,
                    q_len,
                    causal_mask,
                    kv,
                    kv2,
                    t,
                ) && fails_on(engine.kernel, ops.out, e)
            }
        }
    }
}

/// Values on the way through cross-attention.
pub struct CrossTrace<T> {
    /// Normed input.
    pub normed: Seq<T>,
    /// Queries.
    pub q: Seq<T>,
    /// Head-first queries.
    pub q_heads: Seq<T>,
    /// Attention output.
    pub attn: Seq<T>,
    /// Projected output.
    pub out: Seq<T>,
}

/// The operations of cross-attention, in their order.
pub struct CrossOps<T> {
    /// Layer norm.
    pub norm: OpView<T>,
    /// Queries.
    pub query: OpView<T>,
    /// Projection of the output.
    pub out: OpView<T>,
}

/// The operations of cross-attention on `x`, whose inputs are values of `t`.
pub open spec fn cross_ops<T>(
    n_state: int,
    layer: nat,
    rows: int,
    x: Seq<T>,
    t: CrossTrace<T>,
) -> CrossOps<T> {
    let n = Some(n_state);
    CrossOps {
        norm: norm(layer, x, ".cross_attn_ln.weight"@, ".cross_attn_ln.bias"@),
        query: biased(
            layer,
            t.normed,
            rows,
            ".cross_attn.query.weight"@,
            ".cross_attn.query.bias"@,
            n,
        ),
        out: biased(layer, t.attn, rows, ".cross_attn.out.weight"@, ".cross_attn.out.bias"@, n),
    }
}

/// The queries attend to the encoder's keys and values.
pub open spec fn cross_attended<
    T: Add<Output = T> + Sub<Output = T> + Mul<Output = T>,
    M: Fn(T, T) -> T,
    E: Fn(T) -> T,
    R: Fn(T) -> T,
    Z: Fn(T) -> u32,
    V: Fn(u32) -> T,
    K: Fn(Op<T>) -> Result<Vec<T>, String>,
>(
    ctx: ForwardCtx<T>,
    engine: Engine<T, M, E, R, Z, V, K>,
    layer: nat,
    q_len: usize,
    t: CrossTrace<T>,
) -> bool {
    let rows = q_len as int;
    &&& crate::decoder::attention::is_head_first(
        t.q,
        ctx.n_head as int,
        rows,
        ctx.head_dim as int,
        t.q_heads,
    )
    &&& crate::decoder::attention::is_flat_attention(
        engine.attn,
        t.q_heads,
        ctx.cross_k@[layer as int]@,
        ctx.cross_v@[layer as int]@,
        ctx.n_head as int,
        rows,
        ctx.enc_len as int,
        ctx.head_dim as int,
        ctx.scale,
        t.attn,
    )
}

/// How cross-attention of `q_len` rows leads from `x` to `y`.
pub open spec fn cross_attention_by<
    T: Add<Output = T> + Sub<Output = T> + Mul<Output = T>,
    M: Fn(T, T) -> T,
    E: Fn(T) -> T,
    R: Fn(T) -> T,
    Z: Fn(T) -> u32,
    V: Fn(u32) -> T,
    K: Fn(Op<T>) -> Result<Vec<T>, String>,
>(
    ctx: ForwardCtx<T>,
    engine: Engine<T, M, E, R, Z, V, K>,
    layer: nat,
    q_len: usize,
    x: Seq<T>,
    y: Seq<T>,
    t: CrossTrace<T>,
) -> bool {
    let ops = cross_ops(ctx.n_state as int, layer, q_len as int, x, t);
    &&& gives(engine.kernel, ops.norm, t.normed)
    &&& gives(engine.kernel, ops.query, t.q)
    &&& cross_attended(ctx, engine, layer, q_len, t)
    &&& gives(engine.kernel, ops.out, t.out)
    &&& are_sums(x, t.out, y)
}

/// How cross-attention fails with the message `e`: at the first of its operations that the kernels
/// fail on.
pub open spec fn cross_attention_fails_by<
    T: Add<Output = T> + Sub<Output = T> + Mul<Output = T>,
    M: Fn(T, T) -> T,
    E: Fn(T) -> T,
    R: Fn(T) -> T,
    Z: Fn(T) -> u32,
    V: Fn(u32) -> T,
    K: Fn(Op<T>) -> Result<Vec<T>, String>,
>(
    ctx: ForwardCtx<T>,
    engine: Engine<T, M, E, R, Z, V, K>,
    layer: nat,
    q_len: usize,
    x: Seq<T>,
    e: Seq<char>,
    t: CrossTrace<T>,
) -> bool {
    let ops = cross_ops(ctx.n_state as int, layer, q_len as int, x, t);
    ||| fails_on(engine.kernel, ops.norm, e)
    ||| gives(engine.kernel, ops.norm, t.normed) && {
        ||| fails_on(engine.kernel, ops.query, e)
        ||| gives(engine.kernel, ops.query, t.q) && cross_attended(ctx, engine, layer, q_len, t)
            && fails_on(engine.kernel, ops.out, e)
    }
}

/// Values on the way through the feed-forward part.
pub struct FeedTrace<T> {
    /// Normed input.
    pub normed: Seq<T>,
    /// Hidden layer.
    pub hidden: Seq<T>,
    /// Activated hidden layer.
    pub active: Seq<T>,
    /// Output.
    pub out: Seq<T>,
}

/// The operations of the feed-forward part, in their order.
pub struct FeedOps<T> {
    /// Layer norm.
    pub norm: OpView<T>,
    /// Hidden layer.
    pub hidden: OpView<T>,
    /// Activation.
    pub active: OpView<T>,
    /// Output.
    pub out: OpView<T>,
}

/// The operations of the feed-forward part on `x`, whose inputs are values of `t`.
pub open spec fn feed_ops<T>(
    n_state: int,
    layer: nat,
    rows: int,
    x: Seq<T>,
    t: FeedTrace<T>,
) -> FeedOps<T> {
    FeedOps {
        norm: norm(layer, x, ".mlp_ln.weight"@, ".mlp_ln.bias"@),
        hidden: biased(layer, t.normed, rows, ".mlp.0.weight"@, ".mlp.0.bias"@, None),
        active: OpView::Gelu(t.hidden),
        out: biased(layer, t.active, rows, ".mlp.2.weight"@, ".mlp.2.bias"@, Some(n_state)),
    }
}

/// How the feed-forward part of `q_len` rows leads from `x` to `y`.
pub open spec fn feed_forward_by<
    T: Add<Output = T> + Sub<Output = T> + Mul<Output = T>,
    M: Fn(T, T) -> T,
    E: Fn(T) -> T,
    R: Fn(T) -> T,
    Z: Fn(T) -> u32,
    V: Fn(u32) -> T,
    K: Fn(Op<T>) -> Result<Vec<T>, String>,
>(
    ctx: ForwardCtx<T>,
    engine: Engine<T, M, E, R, Z, V, K>,
    layer: nat,
    q_len: usize,
    x: Seq<T>,
    y: Seq<T>,
    t: FeedTrace<T>,
) -> bool {
    let ops = feed_ops(ctx.n_state as int, layer, q_len as int, x, t);
    &&& gives(engine.kernel, ops.norm, t.normed)
    &&& gives(engine.kernel, ops.hidden, t.hidden)
    &&& gives(engine.kernel, ops.active, t.active)
    &&& gives(engine.kernel, ops.out, t.out)
    &&& are_sums(x, t.out, y)
}

/// How the feed-forward part fails with the message `e`: at the first of its operations that the
/// kernels fail on.
pub open spec fn feed_forward_fails_by<
    T: Add<Output = T> + Sub<Output = T> + Mul<Output = T>,
    M: Fn(T, T) -> T,
    E: Fn(T) -> T,
    R: Fn(T) -> T,
    Z: Fn(T) -> u32,
    V: Fn(u32) -> T,
    K: Fn(Op<T>) -> Result<Vec<T>, String>,
>(
    ctx: ForwardCtx<T>,
    engine: Engine<T, M, E, R, Z, V, K>,
    layer: nat,
    q_len: usize,
    x: Seq<T>,
    e: Seq<char>,
    t: FeedTrace<T>,
) -> bool {
    let ops = feed_ops(ctx.n_state as int, layer, q_len as int, x, t);
    ||| fails_on(engine.kernel, ops.norm, e)
    ||| gives(engine.kernel, ops.norm, t.normed) && {
        ||| fails_on(engine.kernel, ops.hidden, e)
        ||| gives(engine.kernel, ops.hidden, t.hidden) && {
            ||| fails_on(engine.kernel, ops.active, e)
            ||| gives(engine.kernel, ops.active, t.active) && fails_on(
                engine.kernel,
                ops.out,
                e,
            )
        }
    }
}

/// Self-attention fails with the message `e`; the cache `kv` becomes `kv2`.
pub open spec fn self_attention_fails<
    T: Add<Output = T> + Sub<Output = T> + Mul<Output = T>,
    M: Fn(T, T) -> T,
    E: Fn(T) -> T,
    R: Fn(T) -> T,
    Z: Fn(T) -> u32,
    V: Fn(u32) -> T,
    K: Fn(Op<T>) -> Result<Vec<T>, String>,
>(
    ctx: ForwardCtx<T>,
    engine: Engine<T, M, E, R, Z, V, K>,
    layer: nat,
    q_len: usize,
    causal_mask: bool,
    x: Seq<T>,
    kv: LayerKVCache<T>,
    kv2: LayerKVCache<T>,
    e: Seq<char>,
) -> bool {
    exists|t: SelfTrace<T>| #[trigger]
        self_attention_fails_by(ctx, engine, layer, q_len, causal_mask, x, kv, kv2, e, t)
}

/// Cross-attention fails with the message `e`.
pub open spec fn cross_attention_fails<
    T: Add<Output = T> + Sub<Output = T> + Mul<Output = T>,
    M: Fn(T, T) -> T,
    E: Fn(T) -> T,
    R: Fn(T) -> T,
    Z: Fn(T) -> u32,
    V: Fn(u32) -> T,
    K: Fn(Op<T>) -> Result<Vec<T>, String>,
>(
    ctx: ForwardCtx<T>,
    engine: Engine<T, M, E, R, Z, V, K>,
    layer: nat,
    q_len: usize,
    x: Seq<T>,
    e: Seq<char>,
) -> bool {
    exists|t: CrossTrace<T>| #[trigger]
        cross_attention_fails_by(ctx, engine, layer, q_len, x, e, t)
}

/// The feed-forward part fails with the message `e`.
pub open spec fn feed_forward_fails<
    T: Add<Output = T> + Sub<Output = T> + Mul<Output = T>,
    M: Fn(T, T) -> T,
    E: Fn(T) -> T,
    R: Fn(T) -> T,
    Z: Fn(T) -> u32,
    V: Fn(u32) -> T,
    K: Fn(Op<T>) -> Result<Vec<T>, String>,
>(
    ctx: ForwardCtx<T>,
    engine: Engine<T, M, E, R, Z, V, K>,
    layer: nat,
    q_len: usize,
    x: Seq<T>,
    e: Seq<char>,
) -> bool {
    exists|t: FeedTrace<T>| #[trigger] feed_forward_fails_by(ctx, engine, layer, q_len, x, e, t)
}

/// Self-attention of `q_len` rows leads from `x` to `y` and from the cache `kv` to `kv2`.
pub open spec fn is_self_attention<
    T: Add<Output = T> + Sub<Output = T> + Mul<Output = T>,
    M: Fn(T, T) -> T,
    E: Fn(T) -> T,
    R: Fn(T) -> T,
    Z: Fn(T) -> u32,
    V: Fn(u32) -> T,
    K: Fn(Op<T>) -> Result<Vec<T>, String>,
>(
    ctx: ForwardCtx<T>,
    engine: Engine<T, M, E, R, Z, V, K>,
    layer: nat,
    q_len: usize,
    causal_mask: bool,
    x: Seq<T>,
    kv: LayerKVCache<T>,
    kv2: LayerKVCache<T>,
    y: Seq<T>,
) -> bool {
    exists|t: SelfTrace<T>| #[trigger]
        self_attention_by(ctx, engine, layer, q_len, causal_mask, x, kv, kv2, y, t)
}

/// Cross-attention of `q_len` rows leads from `x` to `y`.
pub open spec fn is_cross_attention<
    T: Add<Output = T> + Sub<Output = T> + Mul<Output = T>,
    M: Fn(T, T) -> T,
    E: Fn(T) -> T,
    R: Fn(T) -> T,
    Z: Fn(T) -> u32,
    V: Fn(u32) -> T,
    K: Fn(Op<T>) -> Result<Vec<T>, String>,
>(
    ctx: ForwardCtx<T>,
    engine: Engine<T, M, E, R, Z, V, K>,
    layer: nat,
    q_len: usize,
    x: Seq<T>,
    y: Seq<T>,
) -> bool {
    exists|t: CrossTrace<T>| #[trigger] cross_attention_by(ctx, engine, layer, q_len, x, y, t)
}

/// The feed-forward part of `q_len` rows leads from `x` to `y`.
pub open spec fn is_feed_forward<
    T: Add<Output = T> + Sub<Output = T> + Mul<Output = T>,
    M: Fn(T, T) -> T,
    E: Fn(T) -> T,
    R: Fn(T) -> T,
    Z: Fn(T) -> u32,
    V: Fn(u32) -> T,
    K: Fn(Op<T>) -> Result<Vec<T>, String>,
>(
    ctx: ForwardCtx<T>,
    engine: Engine<T, M, E, R, Z, V, K>,
    layer: nat,
    q_len: usize,
    x: Seq<T>,
    y: Seq<T>,
) -> bool {
    exists|t: FeedTrace<T>| #[trigger] feed_forward_by(ctx, engine, layer, q_len, x, y, t)
}

/// Runs layer norm with a block's weights.
fn run_norm<T: Copy, K: Fn(Op<T>) -> Result<Vec<T>, String>>(
    kernel: &K,
    layer: usize,
    x: &Vec<T>,
    weight: &str,
    bias: &str,
) -> (r: Result<Vec<T>, String>)
    requires
        sound(*kernel),
    ensures
        match r {
            Ok(out) => gives(
                *kernel,
                norm(layer as nat, x@, weight@, bias@),
                out@,
            ) && out@.len() == x@.len(),
            Err(e) => fails_on(*kernel, norm(layer as nat, x@, weight@, bias@), e@),
        },
{
    let op: Op<T> = Op::LayerNorm {
        x: slice_to_vec(x.as_slice()),
        weight: get_block_name(layer, weight),
        bias: get_block_name(layer, bias),
        epsilon: EPSILON_BITS,
    };
    run(kernel, op)
}

/// Runs a linear layer with a block's weights.
pub(crate) fn run_linear<T: Copy, K: Fn(Op<T>) -> Result<Vec<T>, String>>(
    kernel: &K,
    layer: usize,
    x: &[T],
    rows: usize,
    weight: &str,
    bias: &str,
    width: Option<usize>,
) -> (r: Result<Vec<T>, String>)
    requires
        sound(*kernel),
    ensures
        match r {
            Ok(out) => gives(
                *kernel,
                biased(
                    layer as nat,
                    x@,
                    rows as int,
                    weight@,
                    bias@,
                    match width {
                        Some(w) => Some(w as int),
                        None => None,
                    },
                ),
                out@,
            ) && (width is Some ==> out@.len() == rows * width->0),
            Err(e) => fails_on(
                *kernel,
                biased(
                    layer as nat,
                    x@,
                    rows as int,
                    weight@,
                    bias@,
                    match width {
                        Some(w) => Some(w as int),
                        None => None,
                    },
                ),
                e@,
            ),
        },
{
    let op: Op<T> = Op::Linear {
        x: slice_to_vec(x),
        rows,
        weight: get_block_name(layer, weight),
        bias: Some(get_block_name(layer, bias)),
        width,
    };
    run(kernel, op)
}

/// Runs a linear layer with a block's weight and no bias.
pub(crate) fn run_unbiased<T: Copy, K: Fn(Op<T>) -> Result<Vec<T>, String>>(
    kernel: &K,
    layer: usize,
    x: &[T],
    rows: usize,
    weight: &str,
    width: usize,
) -> (r: Result<Vec<T>, String>)
    requires
        sound(*kernel),
    ensures
        match r {
            Ok(out) => gives(
                *kernel,
                unbiased(layer as nat, x@, rows as int, weight@, width as int),
                out@,
            ) && out@.len() == rows * width,
            Err(e) => fails_on(
                *kernel,
                unbiased(layer as nat, x@, rows as int, weight@, width as int),
                e@,
            ),
        },
{
    let op: Op<T> = Op::Linear {
        x: slice_to_vec(x),
        rows,
        weight: get_block_name(layer, weight),
        bias: None,
        width: Some(width),
    };
    run(kernel, op)
}

/// Sizes in a layer of `q_len` rows.
proof fn lemma_sizes<T>(ctx: ForwardCtx<T>, q_len: int)
    requires
        ctx.wf(),
        0 <= q_len,
    ensures
        q_len * ctx.n_state == (ctx.n_head * q_len) * ctx.head_dim,
        q_len * ctx.n_state == (q_len * ctx.n_head) * ctx.head_dim,
        q_len * ctx.n_head == ctx.n_head * q_len,
{
    assert(q_len * (ctx.n_head * ctx.head_dim) == (ctx.n_head * q_len) * ctx.head_dim)
        by (nonlinear_arith);
    assert(q_len * (ctx.n_head * ctx.head_dim) == (q_len * ctx.n_head) * ctx.head_dim)
        by (nonlinear_arith);
    assert(q_len * ctx.n_head == ctx.n_head * q_len) by (nonlinear_arith);
}

/// Self-attention with a residual connection; the new keys and values join the cache.
pub fn self_attention<
    T: Copy + Add<Output = T> + Sub<Output = T> + Mul<Output = T>,
    M: Fn(T, T) -> T,
    E: Fn(T) -> T,
    R: Fn(T) -> T,
    Z: Fn(T) -> u32,
    V: Fn(u32) -> T,
    K: Fn(Op<T>) -> Result<Vec<T>, String>,
>(
    ctx: &ForwardCtx<T>,
    engine: &Engine<T, M, E, R, Z, V, K>,
    layer: usize,
    q_len: usize,
    causal_mask: bool,
    x: &Vec<T>,
    kv: &mut LayerKVCache<T>,
) -> (r: Result<Vec<T>, String>)
    requires
        ctx.wf(),
        engine.ready(),
        crate::num::total_add::<T>(),
        crate::num::total_sub::<T>(),
        crate::num::total_mul::<T>(),
        x@.len() == q_len * ctx.n_state,
        cache_at(*old(kv), *ctx, old(kv).seq_len as int, old(kv).capacity as int),
        old(kv).seq_len + q_len <= old(kv).capacity,
    ensures
        match r {
            Ok(y) => {
                &&& cache_at(
                    *final(kv),
                    *ctx,
                    old(kv).seq_len + q_len,
                    old(kv).capacity as int,
                )
                &&& is_self_attention(
                    *ctx,
                    *engine,
                    layer as nat,
                    q_len,
                    causal_mask,
                    x@,
                    *old(kv),
                    *final(kv),
                    y@,
                )
                &&& y@.len() == x@.len()
            },
            Err(e) => self_attention_fails(
                *ctx,
                *engine,
                layer as nat,
                q_len,
                causal_mask,
                x@,
                *old(kv),
                *final(kv),
                e@,
            ),
        },
{
    let n: usize = ctx.n_state;
    proof {
        lemma_sizes(*ctx, q_len as int);
        assert(ctx.n_head * q_len <= ctx.n_head * kv.capacity) by (nonlinear_arith)
            requires
                0 <= q_len <= kv.capacity,
                0 <= ctx.n_head,
        ;
    }
    let kernel: &K = &engine.kernel;
    let normed: Vec<T> = match run_norm(kernel, layer, x, ".attn_ln.weight", ".attn_ln.bias") {
        Ok(v) => v,
        Err(e) => {
            proof {
                let t = SelfTrace {
                    normed: Seq::empty(),
                    q: Seq::empty(),
                    k: Seq::empty(),
                    v: Seq::empty(),
                    q_heads: Seq::empty(),
                    attn: Seq::empty(),
                    out: Seq::empty(),
                };
                assert(self_attention_fails_by(
                    *ctx,
                    *engine,
                    layer as nat,
                    q_len,
                    causal_mask,
                    x@,
                    *old(kv),
                    *kv,
                    e@,
                    t,
                ));
            }
            return Err(e);
        },
    };
    let q: Vec<T> = match run_linear(
        kernel,
        layer,
        normed.as_slice(),
        q_len,
        ".attn.query.weight",
        ".attn.query.bias",
        Some(n),
    ) {
        Ok(v) => v,
        Err(e) => {
            proof {
                let t = SelfTrace {
                    normed: normed@,
                    q: Seq::empty(),
                    k: Seq::empty(),
                    v: Seq::empty(),
                    q_heads: Seq::empty(),
                    attn: Seq::empty(),
                    out: Seq::empty(),
                };
                assert(self_attention_fails_by(
                    *ctx,
                    *engine,
                    layer as nat,
                    q_len,
                    causal_mask,
                    x@,
                    *old(kv),
                    *kv,
                    e@,
                    t,
                ));
            }
            return Err(e);
        },
    };
    let new_k: Vec<T> = match run_unbiased(
        kernel,
        layer,
        normed.as_slice(),
        q_len,
        ".attn.key.weight",
        n,
    ) {
        Ok(v) => v,
        Err(e) => {
            proof {
                let t = SelfTrace {
                    normed: normed@,
                    q: q@,
                    k: Seq::empty(),
                    v: Seq::empty(),
                    q_heads: Seq::empty(),
                    attn: Seq::empty(),
                    out: Seq::empty(),
                };
                assert(self_attention_fails_by(
                    *ctx,
                    *engine,
                    layer as nat,
                    q_len,
                    causal_mask,
                    x@,
                    *old(kv),
                    *kv,
                    e@,
                    t,
                ));
            }
            return Err(e);
        },
    };
    let new_v: Vec<T> = match run_linear(
        kernel,
        layer,
        normed.as_slice(),
        q_len,
        ".attn.value.weight",
        ".attn.value.bias",
        Some(n),
    ) {
        Ok(v) => v,
        Err(e) => {
            proof {
                let t = SelfTrace {
                    normed: normed@,
                    q: q@,
                    k: new_k@,
                    v: Seq::empty(),
                    q_heads: Seq::empty(),
                    attn: Seq::empty(),
                    out: Seq::empty(),
                };
                assert(self_attention_fails_by(
                    *ctx,
                    *engine,
                    layer as nat,
                    q_len,
                    causal_mask,
                    x@,
                    *old(kv),
                    *kv,
                    e@,
                    t,
                ));
            }
            return Err(e);
        },
    };
    let past_len: usize = kv.seq_len;
    kv.append(new_k.as_slice(), new_v.as_slice(), q_len);
    let kv_len: usize = kv.seq_len;
    let q_heads: Vec<T> = to_head_first(q.as_slice(), ctx.n_head, q_len, ctx.head_dim);
    let cfg = CachedSdpaConfig {
        n_head: ctx.n_head,
        q_len,
        kv_len,
        head_dim: ctx.head_dim,
        past_len,
        causal_mask,
    };
    let attn: Vec<T> = scaled_dot_product_cached(
        &engine.attn,
        q_heads.as_slice(),
        kv,
        &cfg,
        ctx.scale,
    );
    let out: Vec<T> = match run_linear(
        kernel,
        layer,
        attn.as_slice(),
        q_len,
        ".attn.out.weight",
        ".attn.out.bias",
        Some(n),
    ) {
        Ok(v) => v,
        Err(e) => {
            proof {
                let t = SelfTrace {
                    normed: normed@,
                    q: q@,
                    k: new_k@,
                    v: new_v@,
                    q_heads: q_heads@,
                    attn: attn@,
                    out: Seq::empty(),
                };
                assert(self_attention_fails_by(
                    *ctx,
                    *engine,
                    layer as nat,
                    q_len,
                    causal_mask,
                    x@,
                    *old(kv),
                    *kv,
                    e@,
                    t,
                ));
            }
            return Err(e);
        },
    };
    let y: Vec<T> = add_rows(x.as_slice(), out.as_slice());
    proof {
        let t = SelfTrace {
            normed: normed@,
            q: q@,
            k: new_k@,
            v: new_v@,
            q_heads: q_heads@,
            attn: attn@,
            out: out@,
        };
        assert(self_attention_by(
            *ctx,
            *engine,
            layer as nat,
            q_len,
            causal_mask,
            x@,
            *old(kv),
            *kv,
            y@,
            t,
        ));
    }
    Ok(y)
}

/// Cross-attention with a residual connection.
pub fn cross_attention<
    T: Copy + Add<Output = T> + Sub<Output = T> + Mul<Output = T>,
    M: Fn(T, T) -> T,
    E: Fn(T) -> T,
    R: Fn(T) -> T,
    Z: Fn(T) -> u32,
    V: Fn(u32) -> T,
    K: Fn(Op<T>) -> Result<Vec<T>, String>,
>(
    ctx: &ForwardCtx<T>,
    engine: &Engine<T, M, E, R, Z, V, K>,
    layer: usize,
    q_len: usize,
    x: &Vec<T>,
) -> (r: Result<Vec<T>, String>)
    requires
        ctx.wf(),
        engine.ready(),
        crate::num::total_add::<T>(),
        crate::num::total_sub::<T>(),
        crate::num::total_mul::<T>(),
        layer < ctx.n_layer,
        q_len * ctx.n_head <= usize::MAX,
        x@.len() == q_len * ctx.n_state,
    ensures
        match r {
            Ok(y) => is_cross_attention(*ctx, *engine, layer as nat, q_len, x@, y@) && y@.len()
                == x@.len(),
            Err(e) => cross_attention_fails(*ctx, *engine, layer as nat, q_len, x@, e@),
        },
{
    let n: usize = ctx.n_state;
    proof {
        lemma_sizes(*ctx, q_len as int);
    }
    let kernel: &K = &engine.kernel;
    let normed: Vec<T> = match run_norm(
        kernel,
        layer,
        x,
        ".cross_attn_ln.weight",
        ".cross_attn_ln.bias",
    ) {
        Ok(v) => v,
        Err(e) => {
            proof {
                let t = CrossTrace {
                    normed: Seq::empty(),
                    q: Seq::empty(),
                    q_heads: Seq::empty(),
                    attn: Seq::empty(),
                    out: Seq::empty(),
                };
                assert(cross_attention_fails_by(*ctx, *engine, layer as nat, q_len, x@, e@, t));
            }
            return Err(e);
        },
    };
    let q: Vec<T> = match run_linear(
        kernel,
        layer,
        normed.as_slice(),
        q_len,
        ".cross_attn.query.weight",
        ".cross_attn.query.bias",
        Some(n),
    ) {
        Ok(v) => v,
        Err(e) => {
            proof {
                let t = CrossTrace {
                    normed: normed@,
                    q: Seq::empty(),
                    q_heads: Seq::empty(),
                    attn: Seq::empty(),
                    out: Seq::empty(),
                };
                assert(cross_attention_fails_by(*ctx, *engine, layer as nat, q_len, x@, e@, t));
            }
            return Err(e);
        },
    };
    let q_heads: Vec<T> = to_head_first(q.as_slice(), ctx.n_head, q_len, ctx.head_dim);
    let attn: Vec<T> = scaled_dot_product_flat(
        &engine.attn,
        q_heads.as_slice(),
        ctx.cross_k[layer].as_slice(),
        ctx.cross_v[layer].as_slice(),
        ctx.n_head,
        q_len,
        ctx.enc_len,
        ctx.head_dim,
        ctx.scale,
    );
    let out: Vec<T> = match run_linear(
        kernel,
        layer,
        attn.as_slice(),
        q_len,
        ".cross_attn.out.weight",
        ".cross_attn.out.bias",
        Some(n),
    ) {
        Ok(v) => v,
        Err(e) => {
            proof {
                let t = CrossTrace {
                    normed: normed@,
                    q: q@,
                    q_heads: q_heads@,
                    attn: attn@,
                    out: Seq::empty(),
                };
                assert(cross_attention_fails_by(*ctx, *engine, layer as nat, q_len, x@, e@, t));
            }
            return Err(e);
        },
    };
    let y: Vec<T> = add_rows(x.as_slice(), out.as_slice());
    proof {
        let t = CrossTrace {
            normed: normed@,
            q: q@,
            q_heads: q_heads@,
            attn: attn@,
            out: out@,
        };
        assert(cross_attention_by(*ctx, *engine, layer as nat, q_len, x@, y@, t));
    }
    Ok(y)
}

/// The feed-forward part with a residual connection.
pub fn feed_forward<
    T: Copy + Add<Output = T> + Sub<Output = T> + Mul<Output = T>,
    M: Fn(T, T) -> T,
    E: Fn(T) -> T,
    R: Fn(T) -> T,
    Z: Fn(T) -> u32,
    V: Fn(u32) -> T,
    K: Fn(Op<T>) -> Result<Vec<T>, String>,
>(
    ctx: &ForwardCtx<T>,
    engine: &Engine<T, M, E, R, Z, V, K>,
    layer: usize,
    q_len: usize,
    x: &Vec<T>,
) -> (r: Result<Vec<T>, String>)
    requires
        engine.ready(),
        crate::num::total_add::<T>(),
        x@.len() == q_len * ctx.n_state,
    ensures
        match r {
            Ok(y) => is_feed_forward(*ctx, *engine, layer as nat, q_len, x@, y@) && y@.len()
                == x@.len(),
            Err(e) => feed_forward_fails(*ctx, *engine, layer as nat, q_len, x@, e@),
        },
{
    let n: usize = ctx.n_state;
    let kernel: &K = &engine.kernel;
    let normed: Vec<T> = match run_norm(kernel, layer, x, ".mlp_ln.weight", ".mlp_ln.bias") {
        Ok(v) => v,
        Err(e) => {
            proof {
                let t = FeedTrace {
                    normed: Seq::empty(),
                    hidden: Seq::empty(),
                    active: Seq::empty(),
                    out: Seq::empty(),
                };
                assert(feed_forward_fails_by(*ctx, *engine, layer as nat, q_len, x@, e@, t));
            }
            return Err(e);
        },
    };
    let hidden: Vec<T> = match run_linear(
        kernel,
        layer,
        normed.as_slice(),
        q_len,
        ".mlp.0.weight",
        ".mlp.0.bias",
        None,
    ) {
        Ok(v) => v,
        Err(e) => {
            proof {
                let t = FeedTrace {
                    normed: normed@,
                    hidden: Seq::empty(),
                    active: Seq::empty(),
                    out: Seq::empty(),
                };
                assert(feed_forward_fails_by(*ctx, *engine, layer as nat, q_len, x@, e@, t));
            }
            return Err(e);
        },
    };
    let ghost h = hidden@;
    let active: Vec<T> = match run(kernel, Op::Gelu { x: hidden }) {
        Ok(v) => v,
        Err(e) => {
            proof {
                let t = FeedTrace {
                    normed: normed@,
                    hidden: h,
                    active: Seq::empty(),
                    out: Seq::empty(),
                };
                assert(feed_forward_fails_by(*ctx, *engine, layer as nat, q_len, x@, e@, t));
            }
            return Err(e);
        },
    };
    let out: Vec<T> = match run_linear(
        kernel,
        layer,
        active.as_slice(),
        q_len,
        ".mlp.2.weight",
        ".mlp.2.bias",
        Some(n),
    ) {
        Ok(v) => v,
        Err(e) => {
            proof {
                let t = FeedTrace {
                    normed: normed@,
                    hidden: h,
                    active: active@,
                    out: Seq::empty(),
                };
                assert(feed_forward_fails_by(*ctx, *engine, layer as nat, q_len, x@, e@, t));
            }
            return Err(e);
        },
    };
    let y: Vec<T> = add_rows(x.as_slice(), out.as_slice());
    proof {
        let t = FeedTrace { normed: normed@, hidden: h, active: active@, out: out@ };
        assert(feed_forward_by(*ctx, *engine, layer as nat, q_len, x@, y@, t));
    }
    Ok(y)
}

/// One layer leads from `x` to `y` and from the cache `kv` to `kv2`: self-attention, then
/// cross-attention, then the feed-forward part.
pub open spec fn is_layer<
    T: Add<Output = T> + Sub<Output = T> + Mul<Output = T>,
    M: Fn(T, T) -> T,
    E: Fn(T) -> T,
    R: Fn(T) -> T,
    Z: Fn(T) -> u32,
    V: Fn(u32) -> T,
    K: Fn(Op<T>) -> Result<Vec<T>, String>,
>(
    ctx: ForwardCtx<T>,
    engine: Engine<T, M, E, R, Z, V, K>,
    layer: nat,
    q_len: usize,
    causal_mask: bool,
    x: Seq<T>,
    kv: LayerKVCache<T>,
    kv2: LayerKVCache<T>,
    y: Seq<T>,
) -> bool {
    exists|a: Seq<T>, b: Seq<T>| #[trigger]
        is_self_attention(ctx, engine, layer, q_len, causal_mask, x, kv, kv2, a) && #[trigger]
        is_cross_attention(ctx, engine, layer, q_len, a, b) && is_feed_forward(
            ctx,
            engine,
            layer,
            q_len,
            b,
            y,
        )
}

/// One layer fails with the message `e` in one of its parts, behind the parts before it; the cache
/// `kv` becomes `kv2`.
pub open spec fn layer_fails<
    T: Add<Output = T> + Sub<Output = T> + Mul<Output = T>,
    M: Fn(T, T) -> T,
    E: Fn(T) -> T,
    R: Fn(T) -> T,
    Z: Fn(T) -> u32,
    V: Fn(u32) -> T,
    K: Fn(Op<T>) -> Result<Vec<T>, String>,
>(
    ctx: ForwardCtx<T>,
    engine: Engine<T, M, E, R, Z, V, K>,
    layer: nat,
    q_len: usize,
    causal_mask: bool,
    x: Seq<T>,
    kv: LayerKVCache<T>,
    kv2: LayerKVCache<T>,
    e: Seq<char>,
) -> bool {
    ||| self_attention_fails(ctx, engine, layer, q_len, causal_mask, x, kv, kv2, e)
    ||| exists|a: Seq<T>| #[trigger]
        is_self_attention(ctx, engine, layer, q_len, causal_mask, x, kv, kv2, a)
            && cross_attention_fails(ctx, engine, layer, q_len, a, e)
    ||| exists|a: Seq<T>, b: Seq<T>| #[trigger]
        is_self_attention(ctx, engine, layer, q_len, causal_mask, x, kv, kv2, a) && #[trigger]
        is_cross_attention(ctx, engine, layer, q_len, a, b) && feed_forward_fails(
            ctx,
            engine,
            layer,
            q_len,
            b,
            e,
        )
}

/// One layer of `q_len` rows.
fn run_layer<
    T: Copy + Add<Output = T> + Sub<Output = T> + Mul<Output = T>,
    M: Fn(T, T) -> T,
    E: Fn(T) -> T,
    R: Fn(T) -> T,
    Z: Fn(T) -> u32,
    V: Fn(u32) -> T,
    K: Fn(Op<T>) -> Result<Vec<T>, String>,
>(
    ctx: &ForwardCtx<T>,
    engine: &Engine<T, M, E, R, Z, V, K>,
    layer: usize,
    q_len: usize,
    causal_mask: bool,
    x: &Vec<T>,
    kv: &mut LayerKVCache<T>,
) -> (r: Result<Vec<T>, String>)
    requires
        ctx.wf(),
        engine.ready(),
        crate::num::total_add::<T>(),
        crate::num::total_sub::<T>(),
        crate::num::total_mul::<T>(),
        layer < ctx.n_layer,
        x@.len() == q_len * ctx.n_state,
        cache_at(*old(kv), *ctx, old(kv).seq_len as int, old(kv).capacity as int),
        old(kv).seq_len + q_len <= old(kv).capacity,
    ensures
        match r {
            Ok(y) => {
                &&& cache_at(
                    *final(kv),
                    *ctx,
                    old(kv).seq_len + q_len,
                    old(kv).capacity as int,
                )
                &&& is_layer(
                    *ctx,
                    *engine,
                    layer as nat,
                    q_len,
                    causal_mask,
                    x@,
                    *old(kv),
                    *final(kv),
                    y@,
                )
                &&& y@.len() == x@.len()
            },
            Err(e) => layer_fails(
                *ctx,
                *engine,
                layer as nat,
                q_len,
                causal_mask,
                x@,
                *old(kv),
                *final(kv),
                e@,
            ),
        },
{
    proof {
        assert(q_len * ctx.n_head <= ctx.n_head * kv.capacity) by (nonlinear_arith)
            requires
                0 <= q_len <= kv.capacity,
                0 <= ctx.n_head,
        ;
    }
    let a: Vec<T> = match self_attention(ctx, engine, layer, q_len, causal_mask, x, kv) {
        Ok(v) => v,
        Err(e) => {
            return Err(e);
        },
    };
    let b: Vec<T> = match cross_attention(ctx, engine, layer, q_len, &a) {
        Ok(v) => v,
        Err(e) => {
            return Err(e);
        },
    };
    feed_forward(ctx, engine, layer, q_len, &b)
}

/// The layer norm behind the last layer.
pub open spec fn final_norm<T>(x: Seq<T>) -> OpView<T> {
    OpView::LayerNorm(x, "decoder.ln.weight"@, "decoder.ln.bias"@, EPSILON_BITS)
}

/// The operation that gives the logits of the last of `rows` rows.
pub open spec fn head_op<T>(ctx: ForwardCtx<T>, normed: Seq<T>, rows: int) -> OpView<T> {
    OpView::Linear(
        crate::rows::row(normed, ctx.n_state as int, rows - 1),
        1,
        "decoder.token_embedding.weight"@,
        None,
        Some(ctx.n_vocab as int),
    )
}

/// How a forward pass led to its logits: `xs` holds what enters the layers and what leaves the
/// last one, `normed` the final layer norm of that.
pub open spec fn forward_by<
    T: Add<Output = T> + Sub<Output = T> + Mul<Output = T>,
    M: Fn(T, T) -> T,
    E: Fn(T) -> T,
    R: Fn(T) -> T,
    Z: Fn(T) -> u32,
    V: Fn(u32) -> T,
    K: Fn(Op<T>) -> Result<Vec<T>, String>,
>(
    ctx: ForwardCtx<T>,
    engine: Engine<T, M, E, R, Z, V, K>,
    tokens: Seq<u32>,
    start: int,
    causal_mask: bool,
    kv: Seq<LayerKVCache<T>>,
    kv2: Seq<LayerKVCache<T>>,
    xs: Seq<Seq<T>>,
    normed: Seq<T>,
    logits: Seq<T>,
) -> bool {
    let n = ctx.n_layer as int;
    &&& tokens.len() <= usize::MAX
    &&& xs.len() == n + 1
    &&& kv2.len() == kv.len()
    &&& is_input(ctx, engine.attn.zero, tokens, start, xs[0])
    &&& forall|l: int|
        0 <= l < n ==> is_layer(
            ctx,
            engine,
            l as nat,
            tokens.len() as usize,
            causal_mask,
            #[trigger] xs[l],
            kv[l],
            kv2[l],
            xs[l + 1],
        )
    &&& gives(engine.kernel, final_norm(xs[n]), normed)
    &&& gives(engine.kernel, head_op(ctx, normed, tokens.len() as int), logits)
}

/// `logits` are those of the last token of a forward pass, which led from the caches `kv` to
/// `kv2`.
pub open spec fn is_forward<
    T: Add<Output = T> + Sub<Output = T> + Mul<Output = T>,
    M: Fn(T, T) -> T,
    E: Fn(T) -> T,
    R: Fn(T) -> T,
    Z: Fn(T) -> u32,
    V: Fn(u32) -> T,
    K: Fn(Op<T>) -> Result<Vec<T>, String>,
>(
    ctx: ForwardCtx<T>,
    engine: Engine<T, M, E, R, Z, V, K>,
    tokens: Seq<u32>,
    start: int,
    causal_mask: bool,
    kv: Seq<LayerKVCache<T>>,
    kv2: Seq<LayerKVCache<T>>,
    logits: Seq<T>,
) -> bool {
    exists|xs: Seq<Seq<T>>, normed: Seq<T>| #[trigger]
        forward_by(ctx, engine, tokens, start, causal_mask, kv, kv2, xs, normed, logits)
}

/// How a forward pass fails with the message `e`: in layer `l`, or behind the last one in the final
/// layer norm or on the way to the logits. `xs` holds what enters the layers up to there, `normed`
/// the final layer norm. The caches of the layers before are extended, those behind are kept.
pub open spec fn forward_fails_by<
    T: Add<Output = T> + Sub<Output = T> + Mul<Output = T>,
    M: Fn(T, T) -> T,
    E: Fn(T) -> T,
    R: Fn(T) -> T,
    Z: Fn(T) -> u32,
    V: Fn(u32) -> T,
    K: Fn(Op<T>) -> Result<Vec<T>, String>,
>(
    ctx: ForwardCtx<T>,
    engine: Engine<T, M, E, R, Z, V, K>,
    tokens: Seq<u32>,
    start: int,
    causal_mask: bool,
    kv: Seq<LayerKVCache<T>>,
    kv2: Seq<LayerKVCache<T>>,
    e: Seq<char>,
    l: int,
    xs: Seq<Seq<T>>,
    normed: Seq<T>,
) -> bool {
    let n = ctx.n_layer as int;
    &&& tokens.len() <= usize::MAX
    &&& 0 <= l <= n
    &&& xs.len() == l + 1
    &&& kv2.len() == kv.len()
    &&& is_input(ctx, engine.attn.zero, tokens, start, xs[0])
    &&& forall|j: int|
        0 <= j < l ==> is_layer(
            ctx,
            engine,
            j as nat,
            tokens.len() as usize,
            causal_mask,
            #[trigger] xs[j],
            kv[j],
            kv2[j],
            xs[j + 1],
        )
    &&& forall|j: int| l < j < kv.len() ==> #[trigger] kv2[j] == kv[j]
    &&& if l < n {
        layer_fails(
            ctx,
            engine,
            l as nat,
            tokens.len() as usize,
            causal_mask,
            xs[l],
            kv[l],
            kv2[l],
            e,
        )
    } else {
        ||| fails_on(engine.kernel, final_norm(xs[n]), e)
        ||| gives(engine.kernel, final_norm(xs[n]), normed) && fails_on(
            engine.kernel,
            head_op(ctx, normed, tokens.len() as int),
            e,
        )
    }
}

/// A forward pass fails with the message `e` on one of its own operations; the caches `kv` become
/// `kv2`.
pub open spec fn forward_fails<
    T: Add<Output = T> + Sub<Output = T> + Mul<Output = T>,
    M: Fn(T, T) -> T,
    E: Fn(T) -> T,
    R: Fn(T) -> T,
    Z: Fn(T) -> u32,
    V: Fn(u32) -> T,
    K: Fn(Op<T>) -> Result<Vec<T>, String>,
>(
    ctx: ForwardCtx<T>,
    engine: Engine<T, M, E, R, Z, V, K>,
    tokens: Seq<u32>,
    start: int,
    causal_mask: bool,
    kv: Seq<LayerKVCache<T>>,
    kv2: Seq<LayerKVCache<T>>,
    e: Seq<char>,
) -> bool {
    exists|l: int, xs: Seq<Seq<T>>, normed: Seq<T>| #[trigger]
        forward_fails_by(ctx, engine, tokens, start, causal_mask, kv, kv2, e, l, xs, normed)
}

/// One decoder forward pass -- updates self_kv in place, returns logits for the last token.
pub fn forward<
    T: Copy + Add<Output = T> + Sub<Output = T> + Mul<Output = T>,
    M: Fn(T, T) -> T,
    E: Fn(T) -> T,
    R: Fn(T) -> T,
    Z: Fn(T) -> u32,
    V: Fn(u32) -> T,
    K: Fn(Op<T>) -> Result<Vec<T>, String>,
>(
    tokens: &[u32],
    start_pos: usize,
    self_kv: &mut Vec<LayerKVCache<T>>,
    ctx: &ForwardCtx<T>,
    engine: &Engine<T, M, E, R, Z, V, K>,
    causal_mask: bool,
) -> (r: Result<Vec<T>, String>)
    requires
        ctx.wf(),
        engine.ready(),
        crate::num::total_add::<T>(),
        crate::num::total_sub::<T>(),
        crate::num::total_mul::<T>(),
        tokens@.len() > 0,
        start_pos + tokens@.len() <= usize::MAX,
        caches_have_room(old(self_kv)@, *ctx, tokens@.len() as int),
    ensures
        match r {
            Ok(logits) => {
                &&& logits@.len() == ctx.n_vocab
                &&& caches_grown(old(self_kv)@, *ctx, tokens@.len() as int, final(self_kv)@)
                &&& is_forward(
                    *ctx,
                    *engine,
                    tokens@,
                    start_pos as int,
                    causal_mask,
                    old(self_kv)@,
                    final(self_kv)@,
                    logits@,
                )
            },
            Err(e) => forward_fails(
                *ctx,
                *engine,
                tokens@,
                start_pos as int,
                causal_mask,
                old(self_kv)@,
                final(self_kv)@,
                e@,
            ),
        },
{
    let q_len: usize = tokens.len();
    let n_state: usize = ctx.n_state;
    let ghost before = self_kv@;
    let mut x: Vec<T> = embed(ctx, engine.attn.zero, tokens, start_pos);
    let ghost mut xs: Seq<Seq<T>> = seq![x@];
    let mut layer: usize = 0;
    while layer < ctx.n_layer
        invariant
            layer <= ctx.n_layer,
            ctx.wf(),
            engine.ready(),
            crate::num::total_add::<T>(),
            crate::num::total_sub::<T>(),
            crate::num::total_mul::<T>(),
            q_len == tokens@.len(),
            caches_have_room(before, *ctx, q_len as int),
            before == old(self_kv)@,
            self_kv@.len() == ctx.n_layer,
            before.len() == ctx.n_layer,
            forall|l: int|
                0 <= l < layer ==> cache_at(
                    #[trigger] self_kv@[l],
                    *ctx,
                    before[l].seq_len + q_len,
                    before[l].capacity as int,
                ),
            forall|l: int| layer <= l < ctx.n_layer ==> #[trigger] self_kv@[l] == before[l],
            xs.len() == layer + 1,
            xs[layer as int] == x@,
            x@.len() == q_len * ctx.n_state,
            is_input(*ctx, engine.attn.zero, tokens@, start_pos as int, xs[0]),
            forall|l: int|
                0 <= l < layer ==> is_layer(
                    *ctx,
                    *engine,
                    l as nat,
                    q_len,
                    causal_mask,
                    #[trigger] xs[l],
                    before[l],
                    self_kv@[l],
                    xs[l + 1],
                ),
        decreases ctx.n_layer - layer,
    {
        let ghost kv_before = self_kv@;
        assert(self_kv@[layer as int] == before[layer as int]);
        let y: Vec<T> = match run_layer(
            ctx,
            engine,
            layer,
            q_len,
            causal_mask,
            &x,
            &mut self_kv[layer],
        ) {
            Ok(v) => v,
            Err(e) => {
                proof {
                    assert(forward_fails_by(
                        *ctx,
                        *engine,
                        tokens@,
                        start_pos as int,
                        causal_mask,
                        before,
                        self_kv@,
                        e@,
                        layer as int,
                        xs,
                        Seq::empty(),
                    ));
                }
                return Err(e);
            },
        };
        x = y;
        proof {
            let longer = xs.push(x@);
            assert forall|l: int| 0 <= l < layer + 1 implies is_layer(
                *ctx,
                *engine,
                l as nat,
                q_len,
                causal_mask,
                #[trigger] longer[l],
                before[l],
                self_kv@[l],
                longer[l + 1],
            ) by {
                if l < layer {
                    assert(longer[l] == xs[l]);
                    assert(longer[l + 1] == xs[l + 1]);
                    assert(self_kv@[l] == kv_before[l]);
                }
            }
            xs = longer;
        }
        layer = layer + 1;
    }
    let ghost last_x = x@;
    let norm: Op<T> = Op::LayerNorm {
        x,
        weight: "decoder.ln.weight".to_string(),
        bias: "decoder.ln.bias".to_string(),
        epsilon: EPSILON_BITS,
    };
    let normed: Vec<T> = match run(&engine.kernel, norm) {
        Ok(v) => v,
        Err(e) => {
            proof {
                assert(forward_fails_by(
                    *ctx,
                    *engine,
                    tokens@,
                    start_pos as int,
                    causal_mask,
                    before,
                    self_kv@,
                    e@,
                    layer as int,
                    xs,
                    Seq::empty(),
                ));
            }
            return Err(e);
        },
    };
    let last: &[T] = crate::rows::get_row(
        normed.as_slice(),
        n_state,
        q_len - 1,
        Ghost(q_len as int),
    );
    let head: Op<T> = Op::Linear {
        x: slice_to_vec(last),
        rows: 1,
        weight: "decoder.token_embedding.weight".to_string(),
        bias: None,
        width: Some(ctx.n_vocab),
    };
    let r: Result<Vec<T>, String> = run(&engine.kernel, head);
    proof {
        if r is Ok {
            assert(forward_by(
                *ctx,
                *engine,
                tokens@,
                start_pos as int,
                causal_mask,
                before,
                self_kv@,
                xs,
                normed@,
                r->Ok_0@,
            ));
        } else {
            let e = r->Err_0;
            assert(forward_fails_by(
                *ctx,
                *engine,
                tokens@,
                start_pos as int,
                causal_mask,
                before,
                self_kv@,
                e@,
                layer as int,
                xs,
                normed@,
            ));
        }
    }
    r
}

} // verus!
