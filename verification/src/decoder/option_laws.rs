//! What the options of a transcription make the decoder do.

use crate::decoder::forward::{Engine, ForwardCtx, Op};
use crate::decoder::kv_cache::LayerKVCache;
use crate::decoder::sampler::{Choice, RunTrace, Sampling};
use crate::decoder::{sampler, BeamJob, DecodeResult, Decoded};
use crate::model::{Hparams, VocabEntry};
use crate::types::TranscribeOptions;
use core::ops::{Add, Mul, Sub};
use vstd::prelude::*;

verus! {

/// Whether the token `k` behind `tokens` would end a run of `n` tokens that `tokens` already hold.
pub open spec fn would_repeat(tokens: Seq<u32>, n: int, k: u32) -> bool {
    &&& 0 < n <= tokens.len()
    &&& exists|j: int|
        0 <= j <= tokens.len() - n && #[trigger] tokens.subrange(j, j + n) == tokens.skip(
            tokens.len() - (n - 1),
        ).push(k)
}

/// Whether the options forbid the token `k` behind `tokens`: it is one of the suppressed tokens, or
/// it would repeat an n-gram.
pub open spec fn forbids(opts: TranscribeOptions<'_>, tokens: Seq<u32>, k: int) -> bool {
    ||| opts.suppress_tokens matches Some(s) && exists|j: int|
        0 <= j < s@.len() && #[trigger] s@[j] == k
    ||| k <= u32::MAX && would_repeat(tokens, opts.no_repeat_ngram_size as int, k as u32)
}

/// The logits that the options leave: those of forbidden tokens are negative infinity, the others
/// are unchanged.
pub open spec fn left_by(opts: TranscribeOptions<'_>, tokens: Seq<u32>, bits: Seq<u32>) -> Seq<
    u32,
> {
    Seq::new(
        bits.len(),
        |k: int|
            if forbids(opts, tokens, k) {
                0xFF80_0000u32
            } else {
                bits[k]
            },
    )
}

/// Whether the token is chosen from the logits `c` as the options ask: sampled with their
/// temperature and filters above temperature zero, else the leading one.
pub open spec fn chosen_by<T>(
    opts: TranscribeOptions<'_>,
    choice: Choice<T>,
    c: Seq<u32>,
    token: u32,
) -> bool {
    if crate::bits::above(opts.temperature, 0) {
        (choice.samples)(
            Sampling { temperature: opts.temperature, top_k: opts.top_k, top_p: opts.top_p },
            c,
            token,
        )
    } else {
        token == crate::bits::leader(c) as u32
    }
}

/// The forward passes of a run: the first on the prompt under the causal mask, each further one on
/// the token that came last, at the position behind all before it and with the caches that the pass
/// before left. `t.bits` are the bit patterns of their logits.
pub open spec fn is_run<
    T: Add<Output = T> + Sub<Output = T> + Mul<Output = T>,
    M: Fn(T, T) -> T,
    E: Fn(T) -> T,
    R: Fn(T) -> T,
    Z: Fn(T) -> u32,
    V: Fn(u32) -> T,
    K: Fn(Op<T>) -> Result<Vec<T>, String>,
>(
    ctx: ForwardCtx<T>,
    engine: Engine<T, M, E, R, Z, V, K>,
    choice: Choice<T>,
    prompt: Seq<u32>,
    tokens: Seq<u32>,
    t: RunTrace<T>,
) -> bool {
    let calls = t.logits.len() as int;
    &&& tokens.len() <= calls <= tokens.len() + 1
    &&& t.bits.len() == calls
    &&& t.kvs.len() == calls + 1
    &&& calls > 0 ==> crate::decoder::forward::is_forward(
        ctx,
        engine,
        prompt,
        0,
        true,
        t.kvs[0],
        t.kvs[1],
        t.logits[0],
    )
    &&& forall|i: int|
        0 < i < calls ==> crate::decoder::forward::is_forward(
            ctx,
            engine,
            seq![tokens[i - 1]],
            prompt.len() + i - 1,
            false,
            t.kvs[i],
            t.kvs[i + 1],
            #[trigger] t.logits[i],
        )
    &&& forall|i: int| 0 <= i < calls ==> (#[trigger] t.bits[i]).len() == t.logits[i].len()
    &&& forall|i: int, k: int|
        0 <= i < calls && 0 <= k < t.bits[i].len() ==> (choice.has_bits)(
            t.logits[i][k],
            #[trigger] t.bits[i][k],
        )
    &&& forall|l: int|
        0 <= l < t.kvs[0].len() ==> (#[trigger] t.kvs[0][l]).seq_len == 0
}

/// The prompt of a language token: the tokens of the previous chunk and those of the initial prompt
/// behind the marker of what came before (if there are any), the start of a transcript, the
/// language, the task, and the marker of a text without timestamps where none are asked for.
pub open spec fn asked_prompt(
    opts: TranscribeOptions<'_>,
    vocab: Seq<VocabEntry>,
    language_token: u32,
) -> Seq<u32> {
    let previous: Seq<u32> = match opts.previous_tokens {
        Some(p) => p@,
        None => Seq::empty(),
    };
    let words: Seq<u32> = match opts.initial_prompt {
        Some(t) => crate::decoder::prompt::encoded(
            vstd::utf8::encode_utf8(t@),
            crate::decoder::prompt::text_bytes(vocab),
        ),
        None => Seq::empty(),
    };
    let task: Seq<u32> = seq![50258u32, language_token, 50359u32];
    let marked = if opts.timestamps {
        task
    } else {
        task.push(50363u32)
    };
    if previous.len() + words.len() == 0 {
        marked
    } else {
        seq![50361u32] + previous + words + marked
    }
}

/// Both ways to say which tokens repeat an n-gram.
proof fn lemma_would_repeat(tokens: Seq<u32>, n: nat, k: u32)
    ensures
        would_repeat(tokens, n as int, k) <==> crate::decode_utils::repeats(tokens, n, k),
{
    let next = crate::decode_utils::ngram_prefix(tokens, n).push(k);
    let grams = crate::decode_utils::ngrams(tokens, n);
    if would_repeat(tokens, n as int, k) {
        let j = choose|j: int|
            0 <= j <= tokens.len() - n && #[trigger] tokens.subrange(j, j + n) == tokens.skip(
                tokens.len() - (n - 1),
            ).push(k);
        assert(grams[j] == next);
        assert(grams.contains(next));
    }
    if crate::decode_utils::repeats(tokens, n, k) {
        let j = choose|j: int| 0 <= j < grams.len() && grams[j] == next;
        assert(tokens.subrange(j, j + n) == next);
    }
}

/// The logits that the rules of the options leave are those that the options leave.
proof fn lemma_left_by(
    opts: TranscribeOptions<'_>,
    hp: Hparams,
    prompt_len: int,
    strategy: sampler::Strategy,
    tokens: Seq<u32>,
    bits: Seq<u32>,
)
    ensures
        sampler::constrained(
            crate::decoder::rules_for(opts, hp, prompt_len, strategy),
            tokens,
            bits,
        ) == left_by(opts, tokens, bits),
{
    let rules = crate::decoder::rules_for(opts, hp, prompt_len, strategy);
    assert forall|k: int| 0 <= k < bits.len() implies sampler::is_blocked(rules, tokens, k)
        == forbids(opts, tokens, k) by {
        lemma_would_repeat(tokens, rules.ngram, k as u32);
        if let Some(s) = opts.suppress_tokens {
            assert(rules.suppress == s@);
        }
    }
    assert(sampler::constrained(rules, tokens, bits) =~= left_by(opts, tokens, bits));
}

/// The passes of a run.
proof fn lemma_run<
    T: Add<Output = T> + Sub<Output = T> + Mul<Output = T>,
    M: Fn(T, T) -> T,
    E: Fn(T) -> T,
    R: Fn(T) -> T,
    Z: Fn(T) -> u32,
    V: Fn(u32) -> T,
    K: Fn(Op<T>) -> Result<Vec<T>, String>,
>(
    ctx: ForwardCtx<T>,
    engine: Engine<T, M, E, R, Z, V, K>,
    choice: Choice<T>,
    rules: sampler::Rules,
    p: Seq<u32>,
    tokens: Seq<u32>,
    probs: Seq<T>,
    t: RunTrace<T>,
)
    requires
        sampler::passes(ctx, engine, choice, rules, p, tokens, probs, t),
        forall|l: int| 0 <= l < t.kvs[0].len() ==> (#[trigger] t.kvs[0][l]).seq_len == 0,
    ensures
        is_run(ctx, engine, choice, p, tokens, t),
{
    assert forall|i: int| 0 < i < t.logits.len() implies crate::decoder::forward::is_forward(
        ctx,
        engine,
        seq![tokens[i - 1]],
        p.len() + i - 1,
        false,
        t.kvs[i],
        t.kvs[i + 1],
        #[trigger] t.logits[i],
    ) by {
        assert(sampler::pass_input(p, tokens, i) == seq![tokens[i - 1]]);
        assert(sampler::pass_position(p, i) == p.len() + i - 1);
    }
    if t.logits.len() > 0 {
        let first = t.logits[0];
        assert(crate::decoder::forward::is_forward(
            ctx,
            engine,
            sampler::pass_input(p, tokens, 0),
            sampler::pass_position(p, 0),
            true,
            t.kvs[0],
            t.kvs[1],
            first,
        ));
    }
    assert forall|i: int, k: int| 0 <= i < t.logits.len() && 0 <= k < t.bits[i].len() implies (
    choice.has_bits)(t.logits[i][k], #[trigger] t.bits[i][k]) by {
        assert(sampler::are_logit_bits(choice, t.logits[i], t.bits[i]));
    }
}

/// The choices of a run.
proof fn lemma_steps<
    T: Add<Output = T> + Sub<Output = T> + Mul<Output = T>,
    M: Fn(T, T) -> T,
    E: Fn(T) -> T,
    R: Fn(T) -> T,
    Z: Fn(T) -> u32,
    V: Fn(u32) -> T,
    K: Fn(Op<T>) -> Result<Vec<T>, String>,
>(
    ctx: ForwardCtx<T>,
    engine: Engine<T, M, E, R, Z, V, K>,
    choice: Choice<T>,
    opts: TranscribeOptions<'_>,
    hp: Hparams,
    p: Seq<u32>,
    tokens: Seq<u32>,
    probs: Seq<T>,
    t: RunTrace<T>,
)
    requires
        crate::decoder::strategy_of(opts) is Some,
        sampler::passes(
            ctx,
            engine,
            choice,
            crate::decoder::rules_for(
                opts,
                hp,
                p.len() as int,
                crate::decoder::strategy_of(opts)->0,
            ),
            p,
            tokens,
            probs,
            t,
        ),
    ensures
        forall|i: int|
            0 <= i < tokens.len() ==> chosen_by(
                opts,
                choice,
                left_by(opts, tokens.take(i), t.bits[i]),
                #[trigger] tokens[i],
            ),
        forall|i: int|
            0 <= i < tokens.len() ==> (choice.has_log_prob)(
                left_by(opts, tokens.take(i), t.bits[i]),
                tokens[i],
                #[trigger] probs[i],
            ),
{
    let strategy = crate::decoder::strategy_of(opts)->0;
    let rules = crate::decoder::rules_for(opts, hp, p.len() as int, strategy);
    assert forall|i: int| 0 <= i < tokens.len() implies chosen_by(
        opts,
        choice,
        left_by(opts, tokens.take(i), t.bits[i]),
        #[trigger] tokens[i],
    ) by {
        lemma_left_by(opts, hp, p.len() as int, strategy, tokens.take(i), t.bits[i]);
        assert(sampler::joins(
            rules,
            choice,
            i,
            sampler::constrained(rules, tokens.take(i), t.bits[i]),
            tokens[i],
        ));
    }
    assert forall|i: int| 0 <= i < tokens.len() implies (choice.has_log_prob)(
        left_by(opts, tokens.take(i), t.bits[i]),
        tokens[i],
        #[trigger] probs[i],
    ) by {
        lemma_left_by(opts, hp, p.len() as int, strategy, tokens.take(i), t.bits[i]);
        assert(sampler::is_log_prob(
            choice,
            sampler::constrained(rules, tokens.take(i), t.bits[i]),
            tokens[i],
            probs[i],
        ));
    }
}

/// The prompt that the options ask for is the one that is built.
proof fn lemma_prompt(opts: TranscribeOptions<'_>, vocab: Seq<VocabEntry>, token: u32)
    ensures
        crate::decoder::prompt::prompt_of(
            crate::tokenizer::multilingual(),
            token,
            opts.timestamps,
            crate::decoder::initial_tokens(opts, vocab),
        ) == asked_prompt(opts, vocab, token),
{
    assert(crate::decoder::prompt::prompt_of(
        crate::tokenizer::multilingual(),
        token,
        opts.timestamps,
        crate::decoder::initial_tokens(opts, vocab),
    ) =~= asked_prompt(opts, vocab, token));
}

/// The run behind an output.
proof fn lemma_generated<
    T: Add<Output = T> + Sub<Output = T> + Mul<Output = T>,
    M: Fn(T, T) -> T,
    E: Fn(T) -> T,
    R: Fn(T) -> T,
    Z: Fn(T) -> u32,
    V: Fn(u32) -> T,
    K: Fn(Op<T>) -> Result<Vec<T>, String>,
>(
    ctx: ForwardCtx<T>,
    engine: Engine<T, M, E, R, Z, V, K>,
    choice: Choice<T>,
    opts: TranscribeOptions<'_>,
    hp: Hparams,
    p: Seq<u32>,
    capacity: int,
    tokens: Seq<u32>,
    probs: Seq<T>,
) -> (t: RunTrace<T>)
    requires
        crate::decoder::strategy_of(opts) is Some,
        sampler::is_generated(
            ctx,
            engine,
            choice,
            crate::decoder::rules_for(
                opts,
                hp,
                p.len() as int,
                crate::decoder::strategy_of(opts)->0,
            ),
            p,
            capacity,
            tokens,
            probs,
        ),
    ensures
        probs.len() == tokens.len(),
        is_run(ctx, engine, choice, p, tokens, t),
        tokens.len() > 0 ==> crate::bits::leader(left_by(opts, Seq::empty(), t.bits[0])) as u32
            != 50362,
        forall|i: int|
            0 <= i < tokens.len() ==> chosen_by(
                opts,
                choice,
                left_by(opts, tokens.take(i), t.bits[i]),
                #[trigger] tokens[i],
            ),
        forall|i: int|
            0 <= i < tokens.len() ==> (choice.has_log_prob)(
                left_by(opts, tokens.take(i), t.bits[i]),
                tokens[i],
                #[trigger] probs[i],
            ),
{
    let rules = crate::decoder::rules_for(
        opts,
        hp,
        p.len() as int,
        crate::decoder::strategy_of(opts)->0,
    );
    let t = choose|t: RunTrace<T>| #[trigger]
        sampler::passes(ctx, engine, choice, rules, p, tokens, probs, t) && sampler::are_fresh(
            t.kvs[0],
            ctx,
            capacity,
            engine.attn.zero,
        ) && sampler::is_finished(choice, rules, tokens, t.bits);
    lemma_run(ctx, engine, choice, rules, p, tokens, probs, t);
    lemma_steps(ctx, engine, choice, opts, hp, p, tokens, probs, t);
    if tokens.len() > 0 {
        let none = tokens.take(0);
        assert(none =~= Seq::empty());
        lemma_left_by(
            opts,
            hp,
            p.len() as int,
            crate::decoder::strategy_of(opts)->0,
            none,
            t.bits[0],
        );
        assert(sampler::joins(
            rules,
            choice,
            0,
            sampler::constrained(rules, none, t.bits[0]),
            tokens[0],
        ));
    }
    t
}

/// Every step of a decode, whatever the strategy, obeys the options: behind the prompt that they ask
/// for, each token is chosen, by the strategy that they ask for, from logits in which every
/// suppressed token and every token that would repeat an n-gram is negative infinity while all others
/// are as the forward pass gave them, and its log-probability is the one among these logits. A language
/// that is given is not reported; else the detected one is used and reported. There is no output where
/// the first logits are led by the token that signals the absence of speech.
pub proof fn law_options_govern_every_step<
    T: Add<Output = T> + Sub<Output = T> + Mul<Output = T>,
    M: Fn(T, T) -> T,
    E: Fn(T) -> T,
    R: Fn(T) -> T,
    Z: Fn(T) -> u32,
    V: Fn(u32) -> T,
    K: Fn(Op<T>) -> Result<Vec<T>, String>,
>(
    ctx: ForwardCtx<T>,
    engine: Engine<T, M, E, R, Z, V, K>,
    choice: Choice<T>,
    opts: TranscribeOptions<'_>,
    hp: Hparams,
    vocab: Seq<VocabEntry>,
    o: DecodeResult<T>,
)
    requires
        crate::decoder::is_decoded(ctx, engine, choice, opts, hp, vocab, Decoded::Done(o)),
    ensures
        crate::bits::above(opts.temperature, 0) || opts.beam_width <= 1,
        o.token_probs@.len() == o.tokens@.len(),
        exists|language_token: u32, t: RunTrace<T>|
            #![trigger is_run(ctx, engine, choice, asked_prompt(opts, vocab, language_token), o.tokens@, t)]
            {
                &&& is_run(
                    ctx,
                    engine,
                    choice,
                    asked_prompt(opts, vocab, language_token),
                    o.tokens@,
                    t,
                )
                &&& opts.language matches Some(l) ==> language_token
                    == crate::languages::token_of(l@)
                &&& opts.language is Some ==> o.detected_language is None
                &&& opts.language is None ==> crate::decoder::text_view(o.detected_language)
                    == Some(crate::languages::code_of(language_token))
                    && crate::decoder::is_detected(
                    ctx,
                    engine,
                    choice,
                    crate::tokenizer::multilingual(),
                    language_token,
                )
                &&& o.tokens@.len() > 0 ==> crate::bits::leader(
                    left_by(opts, Seq::empty(), t.bits[0]),
                ) as u32 != 50362
                &&& forall|i: int|
                    0 <= i < o.tokens@.len() ==> chosen_by(
                        opts,
                        choice,
                        left_by(opts, o.tokens@.take(i), t.bits[i]),
                        #[trigger] o.tokens@[i],
                    )
                &&& forall|i: int|
                    0 <= i < o.tokens@.len() ==> (choice.has_log_prob)(
                        left_by(opts, o.tokens@.take(i), t.bits[i]),
                        o.tokens@[i],
                        #[trigger] o.token_probs@[i],
                    )
            },
{
    let d = Decoded::Done(o);
    let token = choose|token: u32| #[trigger]
        crate::decoder::is_outcome(ctx, engine, choice, opts, hp, vocab, token, d);
    lemma_prompt(opts, vocab, token);
    let p = asked_prompt(opts, vocab, token);
    let t = lemma_generated(
        ctx,
        engine,
        choice,
        opts,
        hp,
        p,
        crate::decoder::capacity_for(p.len() as int),
        o.tokens@,
        o.token_probs@,
    );
    assert(is_run(ctx, engine, choice, asked_prompt(opts, vocab, token), o.tokens@, t));
}

/// A step has an open choice: all logits are numbers, and one that the options do not forbid is
/// above negative infinity.
pub open spec fn is_open(opts: TranscribeOptions<'_>, tokens: Seq<u32>, bits: Seq<u32>) -> bool {
    &&& bits.len() <= u32::MAX
    &&& forall|k: int| 0 <= k < bits.len() ==> !crate::bits::is_nan(#[trigger] bits[k])
    &&& exists|k: int|
        0 <= k < bits.len() && !forbids(opts, tokens, k) && crate::bits::above(
            #[trigger] bits[k],
            0xFF80_0000,
        )
}

/// Sampling never draws a token of logit negative infinity where another one is above it.
pub open spec fn draws_possible_tokens<T>(choice: Choice<T>) -> bool {
    forall|sampling: Sampling, c: Seq<u32>, token: u32, k: int|
        #![trigger (choice.samples)(sampling, c, token), c[k]]
        (choice.samples)(sampling, c, token) && 0 <= k < c.len() && crate::bits::above(
            c[k],
            0xFF80_0000,
        ) ==> token < c.len() && crate::bits::above(c[token as int], 0xFF80_0000)
}

/// What is chosen where the choice is open is not forbidden.
proof fn lemma_choice_is_allowed<T>(
    opts: TranscribeOptions<'_>,
    choice: Choice<T>,
    tokens: Seq<u32>,
    bits: Seq<u32>,
    token: u32,
)
    requires
        is_open(opts, tokens, bits),
        draws_possible_tokens(choice),
        chosen_by(opts, choice, left_by(opts, tokens, bits), token),
    ensures
        !forbids(opts, tokens, token as int),
{
    let c = left_by(opts, tokens, bits);
    let k = choose|k: int|
        0 <= k < bits.len() && !forbids(opts, tokens, k) && crate::bits::above(
            #[trigger] bits[k],
            0xFF80_0000,
        );
    assert(c[k] == bits[k]);
    if !crate::bits::above(opts.temperature, 0) {
        assert forall|i: int| 0 <= i < c.len() implies !crate::bits::is_nan(#[trigger] c[i]) by {
            assert(!crate::bits::is_nan(bits[i]));
        }
        crate::bits::law_leader_is_last_maximum(c, k);
    }
    if forbids(opts, tokens, token as int) {
        assert(c[token as int] == 0xFF80_0000u32);
    }
}

/// Output holds no token of the options' suppressed tokens and no n-gram of the options' size twice,
/// sampled output too, where every step had an open choice. Without one, a forbidden token may be
/// chosen.
pub proof fn law_output_respects_options<
    T: Add<Output = T> + Sub<Output = T> + Mul<Output = T>,
    M: Fn(T, T) -> T,
    E: Fn(T) -> T,
    R: Fn(T) -> T,
    Z: Fn(T) -> u32,
    V: Fn(u32) -> T,
    K: Fn(Op<T>) -> Result<Vec<T>, String>,
>(
    ctx: ForwardCtx<T>,
    engine: Engine<T, M, E, R, Z, V, K>,
    choice: Choice<T>,
    opts: TranscribeOptions<'_>,
    hp: Hparams,
    vocab: Seq<VocabEntry>,
    o: DecodeResult<T>,
)
    requires
        crate::decoder::is_decoded(ctx, engine, choice, opts, hp, vocab, Decoded::Done(o)),
        draws_possible_tokens(choice),
        forall|prompt: Seq<u32>, t: RunTrace<T>, i: int|
            #![trigger is_run(ctx, engine, choice, prompt, o.tokens@, t), t.bits[i]]
            is_run(ctx, engine, choice, prompt, o.tokens@, t) && 0 <= i < o.tokens@.len()
                ==> is_open(opts, o.tokens@.take(i), t.bits[i]),
    ensures
        opts.suppress_tokens matches Some(s) ==> forall|i: int|
            0 <= i < o.tokens@.len() ==> !s@.contains(#[trigger] o.tokens@[i]),
        opts.no_repeat_ngram_size > 0 ==> forall|a: int, b: int|
            0 <= a < b <= o.tokens@.len() - opts.no_repeat_ngram_size
                ==> #[trigger] o.tokens@.subrange(a, a + opts.no_repeat_ngram_size)
                != #[trigger] o.tokens@.subrange(b, b + opts.no_repeat_ngram_size),
{
    law_options_govern_every_step(ctx, engine, choice, opts, hp, vocab, o);
    let tokens = o.tokens@;
    let (lang, t) = choose|lang: u32, t: RunTrace<T>|
        #![trigger is_run(ctx, engine, choice, asked_prompt(opts, vocab, lang), o.tokens@, t)]
        is_run(ctx, engine, choice, asked_prompt(opts, vocab, lang), o.tokens@, t) && forall|i: int|
            0 <= i < o.tokens@.len() ==> chosen_by(
                opts,
                choice,
                left_by(opts, o.tokens@.take(i), t.bits[i]),
                #[trigger] o.tokens@[i],
            );
    assert forall|i: int| 0 <= i < tokens.len() implies !forbids(
        opts,
        tokens.take(i),
        #[trigger] tokens[i] as int,
    ) by {
        assert(is_open(opts, tokens.take(i), t.bits[i]));
        assert(chosen_by(opts, choice, left_by(opts, tokens.take(i), t.bits[i]), tokens[i]));
        lemma_choice_is_allowed(opts, choice, tokens.take(i), t.bits[i], tokens[i]);
    }
    if let Some(s) = opts.suppress_tokens {
        assert forall|i: int| 0 <= i < tokens.len() implies !s@.contains(#[trigger] tokens[i]) by {
            assert(!forbids(opts, tokens.take(i), tokens[i] as int));
            if s@.contains(tokens[i]) {
                let j = choose|j: int| 0 <= j < s@.len() && s@[j] == tokens[i];
                assert(s@[j] == tokens[i] as int);
            }
        }
    }
    let n = opts.no_repeat_ngram_size as int;
    if n > 0 {
        assert forall|a: int, b: int|
            0 <= a < b <= tokens.len() - n implies #[trigger] tokens.subrange(a, a + n)
            != #[trigger] tokens.subrange(b, b + n) by {
            let i = b + n - 1;
            let earlier = tokens.take(i);
            assert(!forbids(opts, earlier, tokens[i] as int));
            assert(earlier.subrange(a, a + n) =~= tokens.subrange(a, a + n));
            assert(earlier.skip(earlier.len() - (n - 1)).push(tokens[i]) =~= tokens.subrange(
                b,
                b + n,
            ));
            if tokens.subrange(a, a + n) == tokens.subrange(b, b + n) {
                assert(would_repeat(earlier, n, tokens[i]));
            }
        }
    }
}

/// A beam search is asked for only at temperature zero with more than one beam, and what is left to
/// do for it carries the options: their prompt, width, suppressed tokens and n-gram size, and as
/// threshold the end-of-text token where timestamps are off, and none where they are on. Its caches
/// have room for the prompt and the longest output, with four rows to spare.
pub proof fn law_beam_search_gets_the_options<
    T: Add<Output = T> + Sub<Output = T> + Mul<Output = T>,
    M: Fn(T, T) -> T,
    E: Fn(T) -> T,
    R: Fn(T) -> T,
    Z: Fn(T) -> u32,
    V: Fn(u32) -> T,
    K: Fn(Op<T>) -> Result<Vec<T>, String>,
>(
    ctx: ForwardCtx<T>,
    engine: Engine<T, M, E, R, Z, V, K>,
    choice: Choice<T>,
    opts: TranscribeOptions<'_>,
    hp: Hparams,
    vocab: Seq<VocabEntry>,
    job: BeamJob<T>,
)
    requires
        crate::decoder::is_decoded(ctx, engine, choice, opts, hp, vocab, Decoded::Beam(job)),
    ensures
        !crate::bits::above(opts.temperature, 0),
        opts.beam_width > 1,
        job.ctx == ctx,
        job.beam_width == opts.beam_width,
        job.no_repeat_ngram_size == opts.no_repeat_ngram_size,
        opts.suppress_tokens matches Some(s) ==> job.suppress@ == s@,
        opts.suppress_tokens is None ==> job.suppress@.len() == 0,
        job.special.eot == 50256,
        job.special.sot == 50258,
        job.special.no_speech == 50362,
        job.eot_threshold == if opts.timestamps {
            u32::MAX
        } else {
            job.special.eot
        },
        job.kv_capacity == job.prompt@.len() + 224 + 4,
        exists|language_token: u32| #[trigger]
            asked_prompt(opts, vocab, language_token) == job.prompt@ && (
            opts.language matches Some(l) ==> language_token == crate::languages::token_of(l@)) && (
            opts.language is Some ==> job.detected_language is None) && (opts.language is None ==> crate::decoder::text_view(job.detected_language) == Some(
                crate::languages::code_of(language_token),
            )),
{
    let d = Decoded::Beam(job);
    let token = choose|token: u32| #[trigger]
        crate::decoder::is_outcome(ctx, engine, choice, opts, hp, vocab, token, d);
    assert(job.prompt@ =~= asked_prompt(opts, vocab, token));
}

/// The detected language is the likeliest one: behind the start token alone, no language token that
/// has a logit has a greater one, where all logits are numbers.
pub proof fn law_detected_language_is_likeliest<
    T: Add<Output = T> + Sub<Output = T> + Mul<Output = T>,
    M: Fn(T, T) -> T,
    E: Fn(T) -> T,
    R: Fn(T) -> T,
    Z: Fn(T) -> u32,
    V: Fn(u32) -> T,
    K: Fn(Op<T>) -> Result<Vec<T>, String>,
>(
    ctx: ForwardCtx<T>,
    engine: Engine<T, M, E, R, Z, V, K>,
    choice: Choice<T>,
    token: u32,
)
    requires
        crate::decoder::is_detected(
            ctx,
            engine,
            choice,
            crate::tokenizer::multilingual(),
            token,
        ),
    ensures
        exists|
            kv: Seq<LayerKVCache<T>>,
            kv2: Seq<LayerKVCache<T>>,
            logits: Seq<T>,
            bits: Seq<u32>,
        |
            #![trigger crate::decoder::forward::is_forward(ctx, engine, seq![50258u32], 0, true, kv, kv2, logits), bits.len()]
            {
                &&& crate::decoder::forward::is_forward(
                    ctx,
                    engine,
                    seq![50258u32],
                    0,
                    true,
                    kv,
                    kv2,
                    logits,
                )
                &&& bits.len() == logits.len()
                &&& forall|k: int|
                    0 <= k < bits.len() ==> (choice.has_bits)(logits[k], #[trigger] bits[k])
                &&& bits.len() <= 50259 ==> token == 50259
                &&& bits.len() > 50259 && (forall|k: int|
                    0 <= k < bits.len() ==> !crate::bits::is_nan(#[trigger] bits[k]))
                    ==> 50259 <= token < 50358 && token < bits.len() && forall|k: int|
                    50259 <= k < 50358 && k < bits.len() ==> crate::bits::rank(#[trigger] bits[k])
                        <= crate::bits::rank(bits[token as int])
            },
{
    let special = crate::tokenizer::multilingual();
    let (kv, kv2, logits, bits) = choose|
        kv: Seq<LayerKVCache<T>>,
        kv2: Seq<LayerKVCache<T>>,
        logits: Seq<T>,
        bits: Seq<u32>,
    | #[trigger]
        crate::decoder::detected_by(
            ctx,
            engine,
            choice,
            special,
            token,
            kv,
            kv2,
            logits,
            bits,
        );
    assert(bits.len() == logits.len());
    if bits.len() > 50259 && (forall|k: int|
        0 <= k < bits.len() ==> !crate::bits::is_nan(#[trigger] bits[k])) {
        let end = if bits.len() < 50358 {
            bits.len() as int
        } else {
            50358
        };
        let part = bits.subrange(50259, end);
        assert forall|j: int| 0 <= j < part.len() implies !crate::bits::is_nan(
            #[trigger] part[j],
        ) by {
            assert(!crate::bits::is_nan(bits[50259 + j]));
        }
        crate::bits::law_leader_is_last_maximum(part, 0);
        assert forall|k: int| 50259 <= k < 50358 && k < bits.len() implies crate::bits::rank(
            #[trigger] bits[k],
        ) <= crate::bits::rank(bits[token as int]) by {
            crate::bits::law_leader_is_last_maximum(part, k - 50259);
            assert(part[k - 50259] == bits[k]);
        }
    }
}

/// The output holds no end of text, and where no timestamps are asked for no token above it, but for
/// the first token of greedy output, which is not the one that signals the absence of speech. It has
/// at most 224 tokens.
pub proof fn law_output_stays_below_end<
    T: Add<Output = T> + Sub<Output = T> + Mul<Output = T>,
    M: Fn(T, T) -> T,
    E: Fn(T) -> T,
    R: Fn(T) -> T,
    Z: Fn(T) -> u32,
    V: Fn(u32) -> T,
    K: Fn(Op<T>) -> Result<Vec<T>, String>,
>(
    ctx: ForwardCtx<T>,
    engine: Engine<T, M, E, R, Z, V, K>,
    choice: Choice<T>,
    opts: TranscribeOptions<'_>,
    hp: Hparams,
    vocab: Seq<VocabEntry>,
    o: DecodeResult<T>,
    i: int,
)
    requires
        crate::decoder::is_decoded(ctx, engine, choice, opts, hp, vocab, Decoded::Done(o)),
        0 <= i < o.tokens@.len(),
    ensures
        o.tokens@.len() <= 224,
        o.tokens@[i] != 50256,
        !opts.timestamps && (i > 0 || crate::bits::above(opts.temperature, 0)) ==> o.tokens@[i]
            < 50256,
        i == 0 && !crate::bits::above(opts.temperature, 0) ==> o.tokens@[i] != 50362,
{
    let d = Decoded::Done(o);
    let token = choose|token: u32| #[trigger]
        crate::decoder::is_outcome(ctx, engine, choice, opts, hp, vocab, token, d);
    lemma_prompt(opts, vocab, token);
    let p = asked_prompt(opts, vocab, token);
    let rules = crate::decoder::rules_for(
        opts,
        hp,
        p.len() as int,
        crate::decoder::strategy_of(opts)->0,
    );
    let capacity = crate::decoder::capacity_for(p.len() as int);
    crate::decoder::laws::law_output_has_no_stop_token(
        ctx,
        engine,
        choice,
        rules,
        p,
        capacity,
        o.tokens@,
        o.token_probs@,
        i,
    );
    crate::decoder::laws::law_output_is_bounded(
        ctx,
        engine,
        choice,
        rules,
        p,
        capacity,
        o.tokens@,
        o.token_probs@,
    );
}

/// Whether `n` tokens behind a prompt of `prompt_len` leave no room for another one: there are 224 of
/// them, or, from the second one on, the text context is used up.
pub open spec fn leaves_no_room(hp: Hparams, prompt_len: int, n: int) -> bool {
    n >= 224 || (n >= 2 && prompt_len + n - 1 >= hp.n_text_ctx)
}

/// Whether the logits behind `n` tokens may end the output: greedy output ends at its first step
/// where the leading token is the end of text or signals the absence of speech; sampled output ends
/// there where the leading token signals the absence of speech; and any output ends where the chosen
/// token is the end of text, or is above it and no timestamps are asked for.
pub open spec fn may_end<T>(
    opts: TranscribeOptions<'_>,
    choice: Choice<T>,
    n: int,
    c: Seq<u32>,
) -> bool {
    let lead = crate::bits::leader(c) as u32;
    let sampled = crate::bits::above(opts.temperature, 0);
    if n == 0 && !sampled {
        lead == 50362 || lead == 50256
    } else {
        ||| n == 0 && lead == 50362
        ||| exists|token: u32| #[trigger]
            chosen_by(opts, choice, c, token) && (token == 50256 || (!opts.timestamps && token
                > 50256))
    }
}

/// Decoding ends for a reason, and not before: it goes on behind every token that leaves room, and the
/// output ends where there is no room for another token, or where the logits of one more pass on it
/// end it.
pub proof fn law_output_ends_for_a_reason<
    T: Add<Output = T> + Sub<Output = T> + Mul<Output = T>,
    M: Fn(T, T) -> T,
    E: Fn(T) -> T,
    R: Fn(T) -> T,
    Z: Fn(T) -> u32,
    V: Fn(u32) -> T,
    K: Fn(Op<T>) -> Result<Vec<T>, String>,
>(
    ctx: ForwardCtx<T>,
    engine: Engine<T, M, E, R, Z, V, K>,
    choice: Choice<T>,
    opts: TranscribeOptions<'_>,
    hp: Hparams,
    vocab: Seq<VocabEntry>,
    o: DecodeResult<T>,
)
    requires
        crate::decoder::is_decoded(ctx, engine, choice, opts, hp, vocab, Decoded::Done(o)),
    ensures
        exists|language_token: u32, t: RunTrace<T>|
            #![trigger is_run(ctx, engine, choice, asked_prompt(opts, vocab, language_token), o.tokens@, t)]
            {
                let p = asked_prompt(opts, vocab, language_token);
                let n = o.tokens@.len() as int;
                &&& is_run(ctx, engine, choice, p, o.tokens@, t)
                &&& forall|m: int|
                    1 <= m < t.logits.len() ==> !#[trigger] leaves_no_room(hp, p.len() as int, m)
                &&& t.logits.len() == n ==> leaves_no_room(hp, p.len() as int, n)
                &&& t.logits.len() > n ==> may_end(
                    opts,
                    choice,
                    n,
                    left_by(opts, o.tokens@, t.bits[n]),
                )
            },
{
    let d = Decoded::Done(o);
    let token = choose|token: u32| #[trigger]
        crate::decoder::is_outcome(ctx, engine, choice, opts, hp, vocab, token, d);
    lemma_prompt(opts, vocab, token);
    let p = asked_prompt(opts, vocab, token);
    let t = lemma_finished(
        ctx,
        engine,
        choice,
        opts,
        hp,
        p,
        crate::decoder::capacity_for(p.len() as int),
        o.tokens@,
        o.token_probs@,
    );
    assert(is_run(ctx, engine, choice, asked_prompt(opts, vocab, token), o.tokens@, t));
}

/// Why a run ends.
proof fn lemma_finished<
    T: Add<Output = T> + Sub<Output = T> + Mul<Output = T>,
    M: Fn(T, T) -> T,
    E: Fn(T) -> T,
    R: Fn(T) -> T,
    Z: Fn(T) -> u32,
    V: Fn(u32) -> T,
    K: Fn(Op<T>) -> Result<Vec<T>, String>,
>(
    ctx: ForwardCtx<T>,
    engine: Engine<T, M, E, R, Z, V, K>,
    choice: Choice<T>,
    opts: TranscribeOptions<'_>,
    hp: Hparams,
    p: Seq<u32>,
    capacity: int,
    tokens: Seq<u32>,
    probs: Seq<T>,
) -> (t: RunTrace<T>)
    requires
        crate::decoder::strategy_of(opts) is Some,
        sampler::is_generated(
            ctx,
            engine,
            choice,
            crate::decoder::rules_for(
                opts,
                hp,
                p.len() as int,
                crate::decoder::strategy_of(opts)->0,
            ),
            p,
            capacity,
            tokens,
            probs,
        ),
    ensures
        is_run(ctx, engine, choice, p, tokens, t),
        forall|m: int|
            1 <= m < t.logits.len() ==> !#[trigger] leaves_no_room(hp, p.len() as int, m),
        t.logits.len() == tokens.len() ==> leaves_no_room(hp, p.len() as int, tokens.len() as int),
        t.logits.len() > tokens.len() ==> may_end(
            opts,
            choice,
            tokens.len() as int,
            left_by(opts, tokens, t.bits[tokens.len() as int]),
        ),
{
    let strategy = crate::decoder::strategy_of(opts)->0;
    let rules = crate::decoder::rules_for(opts, hp, p.len() as int, strategy);
    let t = choose|t: RunTrace<T>| #[trigger]
        sampler::passes(ctx, engine, choice, rules, p, tokens, probs, t) && sampler::are_fresh(
            t.kvs[0],
            ctx,
            capacity,
            engine.attn.zero,
        ) && sampler::is_finished(choice, rules, tokens, t.bits);
    lemma_run(ctx, engine, choice, rules, p, tokens, probs, t);
    assert forall|m: int| 1 <= m < t.logits.len() implies !#[trigger] leaves_no_room(
        hp,
        p.len() as int,
        m,
    ) by {
        assert(!sampler::is_full(rules, m));
    }
    let n = tokens.len() as int;
    if t.logits.len() > n {
        let c = left_by(opts, tokens, t.bits[n]);
        lemma_left_by(opts, hp, p.len() as int, strategy, tokens, t.bits[n]);
        assert(sampler::ends(rules, choice, n, c));
        if !(n == 0 && !crate::bits::above(opts.temperature, 0)) && !(n == 0 && crate::bits::leader(
            c,
        ) as u32 == 50362) {
            let token = choose|token: u32| #[trigger]
                sampler::picks(rules.strategy, choice, c, token) && sampler::stops(rules, token);
            assert(chosen_by(opts, choice, c, token));
        }
    }
    t
}

} // verus!
