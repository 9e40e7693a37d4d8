//! Token-by-token decoding: greedy and temperature sampling.

use crate::bits::{bits_of, numbers_of};
use crate::decode_utils::{
    apply_no_repeat_ngram, apply_suppress_tokens, argmax, is_stop_token, DecodeConstraints,
};
use crate::decoder::forward::{forward, Engine, ForwardCtx, Op};
use crate::decoder::kv_cache::LayerKVCache;
use crate::probability::{sample_token, token_log_prob, LogitMath};
use crate::tokenizer::SpecialTokens;
use core::ops::{Add, Div, Mul, Sub};
use vstd::prelude::*;

verus! {

/// Maximum number of tokens that are generated.
pub const MAX_DECODE_LENGTH: usize = 224;

/// The functions that turn logits into tokens and probabilities.
pub struct Chooser<T, X, Y, N, B, G, L, F, U> {
    /// Functions of numbers.
    pub math: LogitMath<T, X, Y, N, B, G, L, F>,
    /// A random number between 0 and 1.
    pub uniform: U,
}

/// What may come of logits: which bit patterns a logit has, which token may be sampled, and which
/// log-probability a token has. Logits are given by their bit patterns.
#[verifier::reject_recursive_types(T)]
pub struct Choice<T> {
    /// Whether a logit has a bit pattern.
    pub has_bits: spec_fn(T, u32) -> bool,
    /// Whether a token may be sampled.
    pub samples: spec_fn(Sampling, Seq<u32>, u32) -> bool,
    /// Whether a token has a log-probability.
    pub has_log_prob: spec_fn(Seq<u32>, u32, T) -> bool,
}

/// Temperature and filters of sampling; temperature and nucleus as bit patterns.
#[derive(Debug, Clone, Copy, PartialEq, Eq, Structural)]
pub struct Sampling {
    /// Temperature.
    pub temperature: u32,
    /// Number of candidates, 0 for all.
    pub top_k: usize,
    /// Nucleus.
    pub top_p: u32,
}

impl<
    T: Add<Output = T> + Sub<Output = T> + Mul<Output = T> + Div<Output = T>,
    X: Fn(T, T) -> T,
    Y: Fn(T) -> T,
    N: Fn(T) -> T,
    B: Fn(T) -> u32,
    G: Fn(T, T) -> bool,
    L: Fn(T, T) -> bool,
    F: Fn(u32) -> T,
    U: Fn() -> T,
> Chooser<T, X, Y, N, B, G, L, F, U> {
    /// Every function accepts every argument.
    pub open spec fn total(&self) -> bool {
        &&& self.math.total()
        &&& call_requires(self.uniform, ())
        &&& crate::num::total_add::<T>()
        &&& crate::num::total_sub::<T>()
        &&& crate::num::total_mul::<T>()
        &&& crate::num::total_div::<T>()
    }

    /// `token` is sampled from the logits `c` with the temperature, the nucleus and the random
    /// number that the caller's functions give.
    pub open spec fn may_sample(&self, sampling: Sampling, c: Seq<u32>, token: u32) -> bool {
        exists|x: Seq<T>, temperature: T, top_p: T, uniform: T|
            crate::bits::are_numbers(self.math.from_bits, c, x) && call_ensures(
                self.math.from_bits,
                (sampling.temperature,),
                temperature,
            ) && call_ensures(self.math.from_bits, (sampling.top_p,), top_p) && call_ensures(
                self.uniform,
                (),
                uniform,
            ) && #[trigger] crate::probability::is_sample(
                self.math,
                x,
                temperature,
                sampling.top_k,
                top_p,
                uniform,
                token,
            )
    }

    /// `p` is the log-probability of `token` given the logits `c`.
    pub open spec fn may_give(&self, c: Seq<u32>, token: u32, p: T) -> bool {
        exists|x: Seq<T>|
            crate::bits::are_numbers(self.math.from_bits, c, x)
                && #[trigger] crate::probability::is_token_log_prob(self.math, x, token, p)
    }

    /// What may come of logits.
    pub open spec fn choice(&self) -> Choice<T> {
        Choice {
            has_bits: |x: T, b: u32| call_ensures(self.math.to_bits, (x,), b),
            samples: |sampling: Sampling, c: Seq<u32>, token: u32|
                self.may_sample(sampling, c, token),
            has_log_prob: |c: Seq<u32>, token: u32, p: T| self.may_give(c, token, p),
        }
    }
}

/// Draws a token from the logits.
fn sample_bits<
    T: Copy + Add<Output = T> + Sub<Output = T> + Mul<Output = T> + Div<Output = T>,
    X: Fn(T, T) -> T,
    Y: Fn(T) -> T,
    N: Fn(T) -> T,
    B: Fn(T) -> u32,
    G: Fn(T, T) -> bool,
    L: Fn(T, T) -> bool,
    F: Fn(u32) -> T,
    U: Fn() -> T,
>(
    chooser: &Chooser<T, X, Y, N, B, G, L, F, U>,
    sampling: Sampling,
    logits: &Vec<u32>,
) -> (token: u32)
    requires
        chooser.total(),
    ensures
        chooser.may_sample(sampling, logits@, token),
{
    let x: Vec<T> = numbers_of(&chooser.math.from_bits, logits.as_slice());
    let temperature: T = (chooser.math.from_bits)(sampling.temperature);
    let top_p: T = (chooser.math.from_bits)(sampling.top_p);
    let uniform: T = (chooser.uniform)();
    let token: u32 = sample_token(
        &chooser.math,
        x.as_slice(),
        temperature,
        sampling.top_k,
        top_p,
        uniform,
    );
    assert(crate::bits::are_numbers(chooser.math.from_bits, logits@, x@));
    token
}

/// The log-probability of a token given the logits.
fn log_prob_of_bits<
    T: Copy + Add<Output = T> + Sub<Output = T> + Mul<Output = T> + Div<Output = T>,
    X: Fn(T, T) -> T,
    Y: Fn(T) -> T,
    N: Fn(T) -> T,
    B: Fn(T) -> u32,
    G: Fn(T, T) -> bool,
    L: Fn(T, T) -> bool,
    F: Fn(u32) -> T,
    U: Fn() -> T,
>(
    chooser: &Chooser<T, X, Y, N, B, G, L, F, U>,
    logits: &Vec<u32>,
    token: u32,
) -> (p: T)
    requires
        chooser.total(),
    ensures
        chooser.may_give(logits@, token, p),
{
    let x: Vec<T> = numbers_of(&chooser.math.from_bits, logits.as_slice());
    let p: T = token_log_prob(&chooser.math, x.as_slice(), token);
    assert(crate::bits::are_numbers(chooser.math.from_bits, logits@, x@));
    p
}

/// How the next token is chosen.
#[derive(Debug, Clone, Copy, PartialEq, Eq, Structural)]
pub enum Strategy {
    /// The token of the largest logit.
    Greedy,
    /// A random token.
    Sample(Sampling),
}

/// What decides on the output besides the logits.
pub struct Rules {
    /// Suppressed tokens.
    pub suppress: Seq<u32>,
    /// Size of the n-grams that must not repeat; 0 for no such limit.
    pub ngram: nat,
    /// Special tokens.
    pub special: SpecialTokens,
    /// Threshold of the tokens that stop decoding.
    pub eot_threshold: u32,
    /// Length of the prompt.
    pub prompt_len: int,
    /// Length of the text context.
    pub n_text_ctx: int,
    /// Choice of the next token.
    pub strategy: Strategy,
}

/// Whether the logit of token `i` is forced to negative infinity behind `tokens`.
pub open spec fn is_blocked(rules: Rules, tokens: Seq<u32>, i: int) -> bool {
    ||| exists|j: int| 0 <= j < rules.suppress.len() && #[trigger] rules.suppress[j] == i
    ||| i <= u32::MAX && crate::decode_utils::repeats(tokens, rules.ngram, i as u32)
}

/// The logits behind `tokens` after suppression and n-gram blocking.
pub open spec fn constrained(rules: Rules, tokens: Seq<u32>, bits: Seq<u32>) -> Seq<u32> {
    Seq::new(
        bits.len(),
        |i: int|
            if is_blocked(rules, tokens, i) {
                crate::bits::NEG_INFINITY
            } else {
                bits[i]
            },
    )
}

/// The token of the largest of the logits `c`.
pub open spec fn best(c: Seq<u32>) -> u32 {
    crate::bits::leader(c) as u32
}

/// Whether `token` may be chosen from the logits `c`.
pub open spec fn picks<T>(
    strategy: Strategy,
    choice: Choice<T>,
    c: Seq<u32>,
    token: u32,
) -> bool {
    match strategy {
        Strategy::Greedy => token == best(c),
        Strategy::Sample(sampling) => (choice.samples)(sampling, c, token),
    }
}

/// Whether `token` ends the output.
pub open spec fn stops(rules: Rules, token: u32) -> bool {
    crate::decode_utils::stops(token, rules.eot_threshold, rules.special)
}

/// Whether `token`, chosen from the logits `c` behind `n` tokens, joins the output. The first
/// token must not signal the absence of speech.
pub open spec fn joins<T>(
    rules: Rules,
    choice: Choice<T>,
    n: int,
    c: Seq<u32>,
    token: u32,
) -> bool {
    &&& picks(rules.strategy, choice, c, token)
    &&& if n == 0 {
        match rules.strategy {
            Strategy::Greedy => token != rules.special.no_speech && token != rules.special.eot,
            Strategy::Sample(_) => best(c) != rules.special.no_speech && !stops(rules, token),
        }
    } else {
        !stops(rules, token)
    }
}

/// Whether the logits `c` behind `n` tokens end the output.
pub open spec fn ends<T>(
    rules: Rules,
    choice: Choice<T>,
    n: int,
    c: Seq<u32>,
) -> bool {
    if n == 0 && rules.strategy == Strategy::Greedy {
        best(c) == rules.special.no_speech || best(c) == rules.special.eot
    } else if n == 0 && best(c) == rules.special.no_speech {
        true
    } else {
        exists|t: u32| #[trigger]
            picks(rules.strategy, choice, c, t) && stops(rules, t)
    }
}

/// Whether the output has no room for a token behind the `n`-th one.
pub open spec fn is_full(rules: Rules, n: int) -> bool {
    n >= MAX_DECODE_LENGTH || (n >= 2 && rules.prompt_len + n - 1 >= rules.n_text_ctx)
}

/// `bits` holds the bit patterns of the logits `x`.
pub open spec fn are_logit_bits<T>(choice: Choice<T>, x: Seq<T>, bits: Seq<u32>) -> bool {
    &&& bits.len() == x.len()
    &&& forall|i: int| 0 <= i < bits.len() ==> (choice.has_bits)(x[i], #[trigger] bits[i])
}

/// `p` is the log-probability of `token` given the logits `c`.
pub open spec fn is_log_prob<T>(choice: Choice<T>, c: Seq<u32>, token: u32, p: T) -> bool {
    (choice.has_log_prob)(c, token, p)
}

/// A run of forward passes: logits of each one, their bit patterns, and the caches before and
/// after each one.
pub struct RunTrace<T> {
    /// Logits.
    pub logits: Seq<Seq<T>>,
    /// Bit patterns of the logits.
    pub bits: Seq<Seq<u32>>,
    /// Caches: before the first pass, and behind each one.
    pub kvs: Seq<Seq<LayerKVCache<T>>>,
}

/// Every layer has an empty cache of `capacity` positions, filled with `zero`.
pub open spec fn are_fresh<T>(
    kv: Seq<LayerKVCache<T>>,
    ctx: ForwardCtx<T>,
    capacity: int,
    zero: T,
) -> bool {
    &&& kv.len() == ctx.n_layer
    &&& forall|l: int|
        0 <= l < kv.len() ==> {
            &&& crate::decoder::forward::cache_at(#[trigger] kv[l], ctx, 0, capacity)
            &&& forall|i: int| 0 <= i < kv[l].k@.len() ==> #[trigger] kv[l].k@[i] == zero
            &&& forall|i: int| 0 <= i < kv[l].v@.len() ==> #[trigger] kv[l].v@[i] == zero
        }
}

/// The tokens that enter forward pass `i`: the prompt, then the last token.
pub open spec fn pass_input(prompt: Seq<u32>, tokens: Seq<u32>, i: int) -> Seq<u32> {
    if i == 0 {
        prompt
    } else {
        seq![tokens[i - 1]]
    }
}

/// The position of the first token that enters forward pass `i`.
pub open spec fn pass_position(prompt: Seq<u32>, i: int) -> int {
    if i == 0 {
        0
    } else {
        prompt.len() + i - 1
    }
}

/// The passes of `t` lead through `tokens`: pass 0 takes the prompt, every further one the token
/// that the pass before it gave.
pub open spec fn passes<
    T: Add<Output = T> + Sub<Output = T> + Mul<Output = T>,
    M: Fn(T, T) -> T,
    E: Fn(T) -> T,
    R: Fn(T) -> T,
    Z: Fn(T) -> u32,
    V: Fn(u32) -> T,
    K: Fn(Op<T>) -> Result<Vec<T>, String>,
>(
    ctx: ForwardCtx<T>,
    engine: Engine<T, M, E, R, Z, V, K>,
    choice: Choice<T>,
    rules: Rules,
    prompt: Seq<u32>,
    tokens: Seq<u32>,
    probs: Seq<T>,
    t: RunTrace<T>,
) -> bool {
    let n = tokens.len() as int;
    let calls = t.logits.len() as int;
    &&& t.bits.len() == calls
    &&& t.kvs.len() == calls + 1
    &&& probs.len() == n
    &&& n <= calls <= n + 1
    &&& forall|i: int|
        0 <= i < calls ==> crate::decoder::forward::is_forward(
            ctx,
            engine,
            pass_input(prompt, tokens, i),
            pass_position(prompt, i),
            i == 0,
            t.kvs[i],
            t.kvs[i + 1],
            #[trigger] t.logits[i],
        )
    &&& forall|i: int|
        0 <= i < calls ==> are_logit_bits(choice, t.logits[i], #[trigger] t.bits[i])
    &&& forall|i: int|
        0 <= i < n ==> joins(
            rules,
            choice,
            i,
            constrained(rules, tokens.take(i), t.bits[i]),
            #[trigger] tokens[i],
        )
    &&& forall|i: int|
        0 <= i < n ==> is_log_prob(
            choice,
            constrained(rules, tokens.take(i), t.bits[i]),
            tokens[i],
            #[trigger] probs[i],
        )
    &&& forall|m: int| 1 <= m < calls ==> !#[trigger] is_full(rules, m)
}

/// `tokens` and their log-probabilities are what decoding gives: it goes on until the logits end
/// it or the output is full.
pub open spec fn is_generated<
    T: Add<Output = T> + Sub<Output = T> + Mul<Output = T>,
    M: Fn(T, T) -> T,
    E: Fn(T) -> T,
    R: Fn(T) -> T,
    Z: Fn(T) -> u32,
    V: Fn(u32) -> T,
    K: Fn(Op<T>) -> Result<Vec<T>, String>,
>(
    ctx: ForwardCtx<T>,
    engine: Engine<T, M, E, R, Z, V, K>,
    choice: Choice<T>,
    rules: Rules,
    prompt: Seq<u32>,
    capacity: int,
    tokens: Seq<u32>,
    probs: Seq<T>,
) -> bool {
    exists|t: RunTrace<T>| #[trigger]
        passes(ctx, engine, choice, rules, prompt, tokens, probs, t) && are_fresh(
            t.kvs[0],
            ctx,
            capacity,
            engine.attn.zero,
        ) && is_finished(choice, rules, tokens, t.bits)
}

/// How decoding breaks off with the message `e`: behind the passes of `t`, which led through
/// `tokens` without finishing the output, the next pass fails and leaves the caches `kv2`.
pub open spec fn broken_off_by<
    T: Add<Output = T> + Sub<Output = T> + Mul<Output = T>,
    M: Fn(T, T) -> T,
    E: Fn(T) -> T,
    R: Fn(T) -> T,
    Z: Fn(T) -> u32,
    V: Fn(u32) -> T,
    K: Fn(Op<T>) -> Result<Vec<T>, String>,
>(
    ctx: ForwardCtx<T>,
    engine: Engine<T, M, E, R, Z, V, K>,
    choice: Choice<T>,
    rules: Rules,
    prompt: Seq<u32>,
    capacity: int,
    e: Seq<char>,
    tokens: Seq<u32>,
    probs: Seq<T>,
    t: RunTrace<T>,
    kv2: Seq<LayerKVCache<T>>,
) -> bool {
    let n = tokens.len() as int;
    &&& passes(ctx, engine, choice, rules, prompt, tokens, probs, t)
    &&& t.logits.len() == n
    &&& are_fresh(t.kvs[0], ctx, capacity, engine.attn.zero)
    &&& n >= 1 ==> !is_full(rules, n)
    &&& crate::decoder::forward::forward_fails(
        ctx,
        engine,
        pass_input(prompt, tokens, n),
        pass_position(prompt, n),
        n == 0,
        t.kvs[n],
        kv2,
        e,
    )
}

/// Decoding breaks off with the message `e` in one of its passes.
pub open spec fn is_broken_off<
    T: Add<Output = T> + Sub<Output = T> + Mul<Output = T>,
    M: Fn(T, T) -> T,
    E: Fn(T) -> T,
    R: Fn(T) -> T,
    Z: Fn(T) -> u32,
    V: Fn(u32) -> T,
    K: Fn(Op<T>) -> Result<Vec<T>, String>,
>(
    ctx: ForwardCtx<T>,
    engine: Engine<T, M, E, R, Z, V, K>,
    choice: Choice<T>,
    rules: Rules,
    prompt: Seq<u32>,
    capacity: int,
    e: Seq<char>,
) -> bool {
    exists|
        tokens: Seq<u32>,
        probs: Seq<T>,
        t: RunTrace<T>,
        kv2: Seq<LayerKVCache<T>>,
    | #[trigger]
        broken_off_by(
            ctx,
            engine,
            choice,
            rules,
            prompt,
            capacity,
            e,
            tokens,
            probs,
            t,
            kv2,
        )
}

/// The output is finished: it is full, or one more pass has ended it.
pub open spec fn is_finished<T>(
    choice: Choice<T>,
    rules: Rules,
    tokens: Seq<u32>,
    bits: Seq<Seq<u32>>,
) -> bool {
    let n = tokens.len() as int;
    if bits.len() == n {
        is_full(rules, n)
    } else {
        ends(rules, choice, n, constrained(rules, tokens, bits[n]))
    }
}

/// Empty caches for all layers.
pub fn fresh_caches<T: Copy>(ctx: &ForwardCtx<T>, capacity: usize, zero: T) -> (kv: Vec<
    LayerKVCache<T>,
>)
    requires
        ctx.n_head * capacity <= usize::MAX,
        (ctx.n_head * capacity) * ctx.head_dim <= usize::MAX,
    ensures
        are_fresh(kv@, *ctx, capacity as int, zero),
{
    let mut kv: Vec<LayerKVCache<T>> = Vec::new();
    let mut l: usize = 0;
    while l < ctx.n_layer
        invariant
            l <= ctx.n_layer,
            ctx.n_head * capacity <= usize::MAX,
            (ctx.n_head * capacity) * ctx.head_dim <= usize::MAX,
            kv@.len() == l,
            forall|j: int|
                0 <= j < l ==> {
                    &&& crate::decoder::forward::cache_at(
                        #[trigger] kv@[j],
                        *ctx,
                        0,
                        capacity as int,
                    )
                    &&& forall|i: int| 0 <= i < kv@[j].k@.len() ==> #[trigger] kv@[j].k@[i] == zero
                    &&& forall|i: int| 0 <= i < kv@[j].v@.len() ==> #[trigger] kv@[j].v@[i] == zero
                },
        decreases ctx.n_layer - l,
    {
        kv.push(LayerKVCache::new(ctx.n_head, ctx.head_dim, capacity, zero));
        l = l + 1;
    }
    kv
}

/// Executable form of [`constrained`].
fn constrain(
    bits: &mut Vec<u32>,
    tokens: &Vec<u32>,
    constraints: &DecodeConstraints<'_>,
    rules: Ghost<Rules>,
)
    requires
        rules@.suppress == constraints.suppress@,
        rules@.ngram == constraints.no_repeat_ngram_size,
    ensures
        final(bits)@ == constrained(rules@, tokens@, old(bits)@),
{
    apply_suppress_tokens(bits, constraints.suppress);
    apply_no_repeat_ngram(bits, tokens.as_slice(), constraints.no_repeat_ngram_size);
    assert(bits@ =~= constrained(rules@, tokens@, old(bits)@));
}

/// What a step does with constrained logits.
enum Step {
    /// The output ends.
    End,
    /// A token joins the output.
    Token(u32),
}

/// Chooses the next token behind `n` tokens.
fn choose_next<
    T: Copy + Add<Output = T> + Sub<Output = T> + Mul<Output = T> + Div<Output = T>,
    X: Fn(T, T) -> T,
    Y: Fn(T) -> T,
    N: Fn(T) -> T,
    B: Fn(T) -> u32,
    G: Fn(T, T) -> bool,
    L: Fn(T, T) -> bool,
    F: Fn(u32) -> T,
    U: Fn() -> T,
>(
    chooser: &Chooser<T, X, Y, N, B, G, L, F, U>,
    special: &SpecialTokens,
    eot_threshold: u32,
    strategy: Strategy,
    n: usize,
    logits: &Vec<u32>,
    rules: Ghost<Rules>,
) -> (r: Step)
    requires
        chooser.total(),
        rules@.special == *special,
        rules@.eot_threshold == eot_threshold,
        rules@.strategy == strategy,
    ensures
        match r {
            Step::End => ends(rules@, chooser.choice(), n as int, logits@),
            Step::Token(t) => joins(rules@, chooser.choice(), n as int, logits@, t),
        },
{
    let top: u32 = argmax(logits.as_slice());
    if n == 0 && top == special.no_speech {
        return Step::End;
    }
    let next: u32 = match strategy {
        Strategy::Greedy => top,
        Strategy::Sample(sampling) => sample_bits(chooser, sampling, logits),
    };
    assert(picks(rules@.strategy, chooser.choice(), logits@, next));
    let stop: bool = match strategy {
        Strategy::Greedy => if n == 0 {
            next == special.eot
        } else {
            is_stop_token(next, eot_threshold, special)
        },
        Strategy::Sample(_) => is_stop_token(next, eot_threshold, special),
    };
    if stop {
        Step::End
    } else {
        Step::Token(next)
    }
}

/// Every layer's cache has the context's shape, `len` filled positions and `capacity` in all.
spec fn caches_even<T>(
    kv: Seq<LayerKVCache<T>>,
    ctx: ForwardCtx<T>,
    len: int,
    capacity: int,
) -> bool {
    &&& kv.len() == ctx.n_layer
    &&& forall|l: int|
        0 <= l < kv.len() ==> crate::decoder::forward::cache_at(
            #[trigger] kv[l],
            ctx,
            len,
            capacity,
        )
}

/// The conditions under which decoding can run.
pub open spec fn can_decode<
    T: Add<Output = T> + Sub<Output = T> + Mul<Output = T>,
    M: Fn(T, T) -> T,
    E: Fn(T) -> T,
    R: Fn(T) -> T,
    Z: Fn(T) -> u32,
    V: Fn(u32) -> T,
    K: Fn(Op<T>) -> Result<Vec<T>, String>,
>(
    ctx: ForwardCtx<T>,
    engine: Engine<T, M, E, R, Z, V, K>,
    prompt: Seq<u32>,
    capacity: int,
) -> bool {
    &&& ctx.wf()
    &&& engine.ready()
    &&& crate::num::total_add::<T>()
    &&& crate::num::total_sub::<T>()
    &&& crate::num::total_mul::<T>()
    &&& prompt.len() > 0
    &&& prompt.len() + MAX_DECODE_LENGTH <= capacity
    &&& capacity <= usize::MAX
    &&& ctx.n_head * capacity <= usize::MAX
    &&& (ctx.n_head * capacity) * ctx.head_dim <= usize::MAX
}

/// The rules of a run.
pub open spec fn rules_of(
    constraints: DecodeConstraints<'_>,
    special: SpecialTokens,
    eot_threshold: u32,
    prompt_len: int,
    n_text_ctx: int,
    strategy: Strategy,
) -> Rules {
    Rules {
        suppress: constraints.suppress@,
        ngram: constraints.no_repeat_ngram_size as nat,
        special,
        eot_threshold,
        prompt_len,
        n_text_ctx,
        strategy,
    }
}

/// Decodes token by token.
#[verifier::rlimit(40)]
fn generate<
    T: Copy + Add<Output = T> + Sub<Output = T> + Mul<Output = T> + Div<Output = T>,
    M: Fn(T, T) -> T,
    E: Fn(T) -> T,
    R: Fn(T) -> T,
    Z: Fn(T) -> u32,
    V: Fn(u32) -> T,
    K: Fn(Op<T>) -> Result<Vec<T>, String>,
    X: Fn(T, T) -> T,
    Y: Fn(T) -> T,
    N: Fn(T) -> T,
    B: Fn(T) -> u32,
    G: Fn(T, T) -> bool,
    L: Fn(T, T) -> bool,
    F: Fn(u32) -> T,
    U: Fn() -> T,
>(
    prompt: &[u32],
    kv_capacity: usize,
    ctx: &ForwardCtx<T>,
    engine: &Engine<T, M, E, R, Z, V, K>,
    chooser: &Chooser<T, X, Y, N, B, G, L, F, U>,
    special: &SpecialTokens,
    eot_threshold: u32,
    constraints: &DecodeConstraints<'_>,
    n_text_ctx: usize,
    strategy: Strategy,
) -> (r: Result<(Vec<u32>, Vec<T>), String>)
    requires
        can_decode(*ctx, *engine, prompt@, kv_capacity as int),
        chooser.total(),
    ensures
        match r {
            Ok(o) => is_generated(
                *ctx,
                *engine,
                chooser.choice(),
                rules_of(
                    *constraints,
                    *special,
                    eot_threshold,
                    prompt@.len() as int,
                    n_text_ctx as int,
                    strategy,
                ),
                prompt@,
                kv_capacity as int,
                o.0@,
                o.1@,
            ),
            Err(e) => is_broken_off(
                *ctx,
                *engine,
                chooser.choice(),
                rules_of(
                    *constraints,
                    *special,
                    eot_threshold,
                    prompt@.len() as int,
                    n_text_ctx as int,
                    strategy,
                ),
                prompt@,
                kv_capacity as int,
                e@,
            ),
        },
{
    let ghost rules = rules_of(
        *constraints,
        *special,
        eot_threshold,
        prompt@.len() as int,
        n_text_ctx as int,
        strategy,
    );
    let ghost choice = chooser.choice();
    let mut kv: Vec<LayerKVCache<T>> = fresh_caches(ctx, kv_capacity, engine.attn.zero);
    let mut tokens: Vec<u32> = Vec::new();
    let mut probs: Vec<T> = Vec::new();
    let prompt_len: usize = prompt.len();
    let ghost mut t: RunTrace<T> = RunTrace {
        logits: Seq::empty(),
        bits: Seq::empty(),
        kvs: seq![kv@],
    };
    loop
        invariant
            can_decode(*ctx, *engine, prompt@, kv_capacity as int),
            chooser.total(),
            choice == chooser.choice(),
            rules == rules_of(
                *constraints,
                *special,
                eot_threshold,
                prompt@.len() as int,
                n_text_ctx as int,
                strategy,
            ),
            prompt_len == prompt@.len(),
            tokens@.len() < MAX_DECODE_LENGTH,
            t.logits.len() == tokens@.len(),
            passes(*ctx, *engine, choice, rules, prompt@, tokens@, probs@, t),
            are_fresh(t.kvs[0], *ctx, kv_capacity as int, engine.attn.zero),
            t.kvs[tokens@.len() as int] == kv@,
            caches_even(
                kv@,
                *ctx,
                if tokens@.len() == 0 {
                    0
                } else {
                    prompt@.len() + tokens@.len() - 1
                },
                kv_capacity as int,
            ),
            tokens@.len() >= 1 ==> !is_full(rules, tokens@.len() as int),
        decreases MAX_DECODE_LENGTH - tokens@.len(),
    {
        let n: usize = tokens.len();
        let outcome: Result<Vec<T>, String> = if n == 0 {
            forward(prompt, 0, &mut kv, ctx, engine, true)
        } else {
            let last: [u32; 1] = [tokens[n - 1]];
            assert(last@ =~= pass_input(prompt@, tokens@, n as int));
            forward(last.as_slice(), prompt_len + n - 1, &mut kv, ctx, engine, false)
        };
        let logits: Vec<T> = match outcome {
            Ok(v) => v,
            Err(e) => {
                assert(broken_off_by(
                    *ctx,
                    *engine,
                    choice,
                    rules,
                    prompt@,
                    kv_capacity as int,
                    e@,
                    tokens@,
                    probs@,
                    t,
                    kv@,
                ));
                return Err(e);
            },
        };
        let mut bits: Vec<u32> = bits_of(&chooser.math.to_bits, logits.as_slice());
        let ghost raw = bits@;
        assert(are_logit_bits(choice, logits@, raw));
        constrain(&mut bits, &tokens, constraints, Ghost(rules));
        let step: Step = choose_next(
            chooser,
            special,
            eot_threshold,
            strategy,
            n,
            &bits,
            Ghost(rules),
        );
        let ghost t2 = RunTrace {
            logits: t.logits.push(logits@),
            bits: t.bits.push(raw),
            kvs: t.kvs.push(kv@),
        };
        proof {
            lemma_one_more_pass(
                *ctx,
                *engine,
                choice,
                rules,
                prompt@,
                tokens@,
                probs@,
                t,
                logits@,
                raw,
                kv@,
            );
        }
        match step {
            Step::End => {
                assert(t2.bits[n as int] == raw);
                assert(is_finished(choice, rules, tokens@, t2.bits));
                assert(passes(*ctx, *engine, choice, rules, prompt@, tokens@, probs@, t2));
                return Ok((tokens, probs));
            },
            Step::Token(token) => {
                let p: T = log_prob_of_bits(chooser, &bits, token);
                assert(is_log_prob(choice, bits@, token, p));
                proof {
                    lemma_token_joins(
                        *ctx,
                        *engine,
                        choice,
                        rules,
                        prompt@,
                        tokens@,
                        probs@,
                        t2,
                        token,
                        p,
                    );
                }
                tokens.push(token);
                probs.push(p);
                proof {
                    t = t2;
                }
                if tokens.len() == MAX_DECODE_LENGTH || (tokens.len() >= 2 && prompt_len
                    + tokens.len() - 1 >= n_text_ctx) {
                    assert(is_finished(choice, rules, tokens@, t.bits));
                    return Ok((tokens, probs));
                }
            },
        }
    }
}

/// A further forward pass extends a run.
proof fn lemma_one_more_pass<
    T: Add<Output = T> + Sub<Output = T> + Mul<Output = T>,
    M: Fn(T, T) -> T,
    E: Fn(T) -> T,
    R: Fn(T) -> T,
    Z: Fn(T) -> u32,
    V: Fn(u32) -> T,
    K: Fn(Op<T>) -> Result<Vec<T>, String>,
>(
    ctx: ForwardCtx<T>,
    engine: Engine<T, M, E, R, Z, V, K>,
    choice: Choice<T>,
    rules: Rules,
    prompt: Seq<u32>,
    tokens: Seq<u32>,
    probs: Seq<T>,
    t: RunTrace<T>,
    logits: Seq<T>,
    bits: Seq<u32>,
    kv: Seq<LayerKVCache<T>>,
)
    requires
        passes(ctx, engine, choice, rules, prompt, tokens, probs, t),
        t.logits.len() == tokens.len(),
        tokens.len() >= 1 ==> !is_full(rules, tokens.len() as int),
        crate::decoder::forward::is_forward(
            ctx,
            engine,
            pass_input(prompt, tokens, tokens.len() as int),
            pass_position(prompt, tokens.len() as int),
            tokens.len() == 0,
            t.kvs[tokens.len() as int],
            kv,
            logits,
        ),
        are_logit_bits(choice, logits, bits),
    ensures
        passes(
            ctx,
            engine,
            choice,
            rules,
            prompt,
            tokens,
            probs,
            (RunTrace {
                logits: t.logits.push(logits),
                bits: t.bits.push(bits),
                kvs: t.kvs.push(kv),
            }),
        ),
{
    let n = tokens.len() as int;
    let t2 = RunTrace {
        logits: t.logits.push(logits),
        bits: t.bits.push(bits),
        kvs: t.kvs.push(kv),
    };
    assert forall|i: int| 0 <= i < n + 1 implies crate::decoder::forward::is_forward(
        ctx,
        engine,
        pass_input(prompt, tokens, i),
        pass_position(prompt, i),
        i == 0,
        t2.kvs[i],
        t2.kvs[i + 1],
        #[trigger] t2.logits[i],
    ) by {
        if i < n {
            assert(t2.logits[i] == t.logits[i]);
            assert(t2.kvs[i] == t.kvs[i] && t2.kvs[i + 1] == t.kvs[i + 1]);
        }
    }
    assert forall|i: int| 0 <= i < n + 1 implies are_logit_bits(
        choice,
        t2.logits[i],
        #[trigger] t2.bits[i],
    ) by {
        if i < n {
            assert(t2.bits[i] == t.bits[i]);
            assert(t2.logits[i] == t.logits[i]);
        }
    }
    assert forall|i: int| 0 <= i < n implies joins(
        rules,
        choice,
        i,
        constrained(rules, tokens.take(i), t2.bits[i]),
        #[trigger] tokens[i],
    ) by {
        assert(t2.bits[i] == t.bits[i]);
    }
    assert forall|i: int| 0 <= i < n implies is_log_prob(
        choice,
        constrained(rules, tokens.take(i), t2.bits[i]),
        tokens[i],
        #[trigger] probs[i],
    ) by {
        assert(t2.bits[i] == t.bits[i]);
    }
}

/// A token that joins extends a run by what its pass gave.
proof fn lemma_token_joins<
    T: Add<Output = T> + Sub<Output = T> + Mul<Output = T>,
    M: Fn(T, T) -> T,
    E: Fn(T) -> T,
    R: Fn(T) -> T,
    Z: Fn(T) -> u32,
    V: Fn(u32) -> T,
    K: Fn(Op<T>) -> Result<Vec<T>, String>,
>(
    ctx: ForwardCtx<T>,
    engine: Engine<T, M, E, R, Z, V, K>,
    choice: Choice<T>,
    rules: Rules,
    prompt: Seq<u32>,
    tokens: Seq<u32>,
    probs: Seq<T>,
    t: RunTrace<T>,
    token: u32,
    p: T,
)
    requires
        passes(ctx, engine, choice, rules, prompt, tokens, probs, t),
        t.logits.len() == tokens.len() + 1,
        joins(
            rules,
            choice,
            tokens.len() as int,
            constrained(rules, tokens, t.bits[tokens.len() as int]),
            token,
        ),
        is_log_prob(
            choice,
            constrained(rules, tokens, t.bits[tokens.len() as int]),
            token,
            p,
        ),
    ensures
        passes(ctx, engine, choice, rules, prompt, tokens.push(token), probs.push(p), t),
{
    let n = tokens.len() as int;
    let more = tokens.push(token);
    let all = probs.push(p);
    assert forall|i: int| 0 <= i < n + 1 implies more.take(i) == tokens.take(i) by {
        assert(more.take(i) =~= tokens.take(i));
    }
    assert(tokens.take(n) =~= tokens);
    assert forall|i: int| 0 <= i < t.logits.len() implies crate::decoder::forward::is_forward(
        ctx,
        engine,
        pass_input(prompt, more, i),
        pass_position(prompt, i),
        i == 0,
        t.kvs[i],
        t.kvs[i + 1],
        #[trigger] t.logits[i],
    ) by {
        assert(pass_input(prompt, more, i) == pass_input(prompt, tokens, i));
    }
    assert forall|i: int| 0 <= i < n + 1 implies joins(
        rules,
        choice,
        i,
        constrained(rules, more.take(i), t.bits[i]),
        #[trigger] more[i],
    ) by {
        assert(more.take(i) == tokens.take(i));
        if i < n {
            assert(more[i] == tokens[i]);
        }
    }
    assert forall|i: int| 0 <= i < n + 1 implies is_log_prob(
        choice,
        constrained(rules, more.take(i), t.bits[i]),
        more[i],
        #[trigger] all[i],
    ) by {
        assert(more.take(i) == tokens.take(i));
        if i < n {
            assert(all[i] == probs[i]);
            assert(more[i] == tokens[i]);
        }
    }
}

/// Greedy (argmax) decoding with a KV cache.
///
/// Runs the forward pass on the prompt, then selects the token of the largest logit at each step
/// until a stop token, the end of the text context or `MAX_DECODE_LENGTH`.
pub fn decode_greedy<
    T: Copy + Add<Output = T> + Sub<Output = T> + Mul<Output = T> + Div<Output = T>,
    M: Fn(T, T) -> T,
    E: Fn(T) -> T,
    R: Fn(T) -> T,
    Z: Fn(T) -> u32,
    V: Fn(u32) -> T,
    K: Fn(Op<T>) -> Result<Vec<T>, String>,
    X: Fn(T, T) -> T,
    Y: Fn(T) -> T,
    N: Fn(T) -> T,
    B: Fn(T) -> u32,
    G: Fn(T, T) -> bool,
    L: Fn(T, T) -> bool,
    F: Fn(u32) -> T,
    U: Fn() -> T,
>(
    prompt: &[u32],
    kv_capacity: usize,
    ctx: &ForwardCtx<T>,
    engine: &Engine<T, M, E, R, Z, V, K>,
    chooser: &Chooser<T, X, Y, N, B, G, L, F, U>,
    special: &SpecialTokens,
    eot_threshold: u32,
    constraints: &DecodeConstraints<'_>,
    n_text_ctx: usize,
) -> (r: Result<(Vec<u32>, Vec<T>), String>)
    requires
        can_decode(*ctx, *engine, prompt@, kv_capacity as int),
        chooser.total(),
    ensures
        match r {
            Ok(o) => is_generated(
                *ctx,
                *engine,
                chooser.choice(),
                rules_of(
                    *constraints,
                    *special,
                    eot_threshold,
                    prompt@.len() as int,
                    n_text_ctx as int,
                    Strategy::Greedy,
                ),
                prompt@,
                kv_capacity as int,
                o.0@,
                o.1@,
            ),
            Err(e) => is_broken_off(
                *ctx,
                *engine,
                chooser.choice(),
                rules_of(
                    *constraints,
                    *special,
                    eot_threshold,
                    prompt@.len() as int,
                    n_text_ctx as int,
                    Strategy::Greedy,
                ),
                prompt@,
                kv_capacity as int,
                e@,
            ),
        },
{
    generate(
        prompt,
        kv_capacity,
        ctx,
        engine,
        chooser,
        special,
        eot_threshold,
        constraints,
        n_text_ctx,
        Strategy::Greedy,
    )
}

/// Decoding with temperature sampling.
///
/// Like greedy decoding, but each token is drawn at random: by the temperature of the options,
/// among the candidates that top-k and top-p filtering leaves.
pub fn decode_sample<
    T: Copy + Add<Output = T> + Sub<Output = T> + Mul<Output = T> + Div<Output = T>,
    M: Fn(T, T) -> T,
    E: Fn(T) -> T,
    R: Fn(T) -> T,
    Z: Fn(T) -> u32,
    V: Fn(u32) -> T,
    K: Fn(Op<T>) -> Result<Vec<T>, String>,
    X: Fn(T, T) -> T,
    Y: Fn(T) -> T,
    N: Fn(T) -> T,
    B: Fn(T) -> u32,
    G: Fn(T, T) -> bool,
    L: Fn(T, T) -> bool,
    F: Fn(u32) -> T,
    U: Fn() -> T,
>(
    prompt: &[u32],
    kv_capacity: usize,
    ctx: &ForwardCtx<T>,
    engine: &Engine<T, M, E, R, Z, V, K>,
    chooser: &Chooser<T, X, Y, N, B, G, L, F, U>,
    special: &SpecialTokens,
    eot_threshold: u32,
    constraints: &DecodeConstraints<'_>,
    n_text_ctx: usize,
    sampling: Sampling,
) -> (r: Result<(Vec<u32>, Vec<T>), String>)
    requires
        can_decode(*ctx, *engine, prompt@, kv_capacity as int),
        chooser.total(),
    ensures
        match r {
            Ok(o) => is_generated(
                *ctx,
                *engine,
                chooser.choice(),
                rules_of(
                    *constraints,
                    *special,
                    eot_threshold,
                    prompt@.len() as int,
                    n_text_ctx as int,
                    Strategy::Sample(sampling),
                ),
                prompt@,
                kv_capacity as int,
                o.0@,
                o.1@,
            ),
            Err(e) => is_broken_off(
                *ctx,
                *engine,
                chooser.choice(),
                rules_of(
                    *constraints,
                    *special,
                    eot_threshold,
                    prompt@.len() as int,
                    n_text_ctx as int,
                    Strategy::Sample(sampling),
                ),
                prompt@,
                kv_capacity as int,
                e@,
            ),
        },
{
    generate(
        prompt,
        kv_capacity,
        ctx,
        engine,
        chooser,
        special,
        eot_threshold,
        constraints,
        n_text_ctx,
        Strategy::Sample(sampling),
    )
}

} // verus!
