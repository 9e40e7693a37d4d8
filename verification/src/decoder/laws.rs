//! What holds of every output of the decoder.

use crate::decoder::forward::{Engine, ForwardCtx, Op};
use crate::decoder::sampler::{Choice, Rules, RunTrace, Strategy, MAX_DECODE_LENGTH};
use core::ops::{Add, Mul, Sub};
use vstd::prelude::*;

verus! {

/// Every token has its log-probability, there are at most `MAX_DECODE_LENGTH` tokens, and behind
/// the second one the output goes on only inside the text context.
pub proof fn law_output_is_bounded<
    T: Add<Output = T> + Sub<Output = T> + Mul<Output = T>,
    M: Fn(T, T) -> T,
    E: Fn(T) -> T,
    R: Fn(T) -> T,
    Z: Fn(T) -> u32,
    V: Fn(u32) -> T,
    K: Fn(Op<T>) -> Result<Vec<T>, String>,
>(
    ctx: ForwardCtx<T>,
    engine: Engine<T, M, E, R, Z, V, K>,
    choice: Choice<T>,
    rules: Rules,
    prompt: Seq<u32>,
    capacity: int,
    tokens: Seq<u32>,
    probs: Seq<T>,
)
    requires
        crate::decoder::sampler::is_generated(
            ctx,
            engine,
            choice,
            rules,
            prompt,
            capacity,
            tokens,
            probs,
        ),
    ensures
        probs.len() == tokens.len(),
        tokens.len() <= MAX_DECODE_LENGTH,
        tokens.len() >= 3 ==> rules.prompt_len + tokens.len() - 2 < rules.n_text_ctx,
{
    let t = choose|t: RunTrace<T>| #[trigger]
        crate::decoder::sampler::passes(
            ctx,
            engine,
            choice,
            rules,
            prompt,
            tokens,
            probs,
            t,
        ) && crate::decoder::sampler::are_fresh(t.kvs[0], ctx, capacity, engine.attn.zero)
            && crate::decoder::sampler::is_finished(choice, rules, tokens, t.bits);
    if tokens.len() > MAX_DECODE_LENGTH {
        assert(!crate::decoder::sampler::is_full(rules, MAX_DECODE_LENGTH as int));
    }
    if tokens.len() >= 3 {
        assert(!crate::decoder::sampler::is_full(rules, tokens.len() - 1));
    }
}

/// No token of the output ends it: none is the end-of-text token, and where timestamps are off
/// none is above it, but for the first token of greedy output. That one is not the token that
/// signals the absence of speech.
pub proof fn law_output_has_no_stop_token<
    T: Add<Output = T> + Sub<Output = T> + Mul<Output = T>,
    M: Fn(T, T) -> T,
    E: Fn(T) -> T,
    R: Fn(T) -> T,
    Z: Fn(T) -> u32,
    V: Fn(u32) -> T,
    K: Fn(Op<T>) -> Result<Vec<T>, String>,
>(
    ctx: ForwardCtx<T>,
    engine: Engine<T, M, E, R, Z, V, K>,
    choice: Choice<T>,
    rules: Rules,
    prompt: Seq<u32>,
    capacity: int,
    tokens: Seq<u32>,
    probs: Seq<T>,
    i: int,
)
    requires
        crate::decoder::sampler::is_generated(
            ctx,
            engine,
            choice,
            rules,
            prompt,
            capacity,
            tokens,
            probs,
        ),
        0 <= i < tokens.len(),
    ensures
        tokens[i] != rules.special.eot,
        i > 0 || rules.strategy != Strategy::Greedy ==> !crate::decoder::sampler::stops(
            rules,
            tokens[i],
        ),
        i == 0 && rules.strategy == Strategy::Greedy ==> tokens[i] != rules.special.no_speech,
{
    let t = choose|t: RunTrace<T>| #[trigger]
        crate::decoder::sampler::passes(
            ctx,
            engine,
            choice,
            rules,
            prompt,
            tokens,
            probs,
            t,
        ) && crate::decoder::sampler::are_fresh(t.kvs[0], ctx, capacity, engine.attn.zero)
            && crate::decoder::sampler::is_finished(choice, rules, tokens, t.bits);
    assert(crate::decoder::sampler::joins(
        rules,
        choice,
        i,
        crate::decoder::sampler::constrained(rules, tokens.take(i), t.bits[i]),
        tokens[i],
    ));
}

/// All logits are numbers, and one that is not blocked is above negative infinity.
pub open spec fn has_open_choice(rules: Rules, tokens: Seq<u32>, bits: Seq<u32>) -> bool {
    &&& bits.len() <= u32::MAX
    &&& forall|i: int| 0 <= i < bits.len() ==> !crate::bits::is_nan(#[trigger] bits[i])
    &&& exists|j: int|
        0 <= j < bits.len() && !crate::decoder::sampler::is_blocked(rules, tokens, j)
            && crate::bits::above(#[trigger] bits[j], crate::bits::NEG_INFINITY)
}

/// The best of the constrained logits is not blocked where there is an open choice.
proof fn lemma_best_is_open(rules: Rules, tokens: Seq<u32>, bits: Seq<u32>)
    requires
        has_open_choice(rules, tokens, bits),
    ensures
        !crate::decoder::sampler::is_blocked(
            rules,
            tokens,
            crate::decoder::sampler::best(
                crate::decoder::sampler::constrained(rules, tokens, bits),
            ) as int,
        ),
{
    let j = choose|j: int|
        0 <= j < bits.len() && !crate::decoder::sampler::is_blocked(rules, tokens, j)
            && crate::bits::above(#[trigger] bits[j], crate::bits::NEG_INFINITY);
    let c = crate::decoder::sampler::constrained(rules, tokens, bits);
    assert(!crate::bits::is_nan(crate::bits::NEG_INFINITY));
    assert forall|i: int| 0 <= i < c.len() implies !crate::bits::is_nan(#[trigger] c[i]) by {
        assert(!crate::bits::is_nan(bits[i]));
    }
    crate::bits::law_leader_is_last_maximum(c, j);
    let p = crate::bits::leader(c);
    assert(c[j] == bits[j]);
    if crate::decoder::sampler::is_blocked(rules, tokens, p) {
        assert(c[p] == crate::bits::NEG_INFINITY);
    }
}

/// Greedy output holds no suppressed token, and no n-gram of the blocked size twice, where every
/// step had an open choice. Without one, a blocked token may be chosen.
pub proof fn law_greedy_output_respects_constraints<
    T: Add<Output = T> + Sub<Output = T> + Mul<Output = T>,
    M: Fn(T, T) -> T,
    E: Fn(T) -> T,
    R: Fn(T) -> T,
    Z: Fn(T) -> u32,
    V: Fn(u32) -> T,
    K: Fn(Op<T>) -> Result<Vec<T>, String>,
>(
    ctx: ForwardCtx<T>,
    engine: Engine<T, M, E, R, Z, V, K>,
    choice: Choice<T>,
    rules: Rules,
    prompt: Seq<u32>,
    tokens: Seq<u32>,
    probs: Seq<T>,
    t: RunTrace<T>,
)
    requires
        crate::decoder::sampler::passes(ctx, engine, choice, rules, prompt, tokens, probs, t),
        rules.strategy == Strategy::Greedy,
        forall|i: int|
            0 <= i < tokens.len() ==> has_open_choice(rules, tokens.take(i), #[trigger] t.bits[i]),
    ensures
        forall|i: int|
            0 <= i < tokens.len() ==> !rules.suppress.contains(#[trigger] tokens[i]),
        rules.ngram > 0 ==> forall|a: int, b: int|
            0 <= a < b < crate::decode_utils::ngrams(tokens, rules.ngram).len()
                ==> #[trigger] crate::decode_utils::ngrams(tokens, rules.ngram)[a]
                != #[trigger] crate::decode_utils::ngrams(tokens, rules.ngram)[b],
{
    assert forall|i: int| 0 <= i < tokens.len() implies !crate::decoder::sampler::is_blocked(
        rules,
        tokens.take(i),
        #[trigger] tokens[i] as int,
    ) by {
        assert(has_open_choice(rules, tokens.take(i), t.bits[i]));
        lemma_best_is_open(rules, tokens.take(i), t.bits[i]);
        assert(crate::decoder::sampler::joins(
            rules,
            choice,
            i,
            crate::decoder::sampler::constrained(rules, tokens.take(i), t.bits[i]),
            tokens[i],
        ));
    }
    assert forall|i: int| 0 <= i < tokens.len() implies !rules.suppress.contains(
        #[trigger] tokens[i],
    ) by {
        assert(!crate::decoder::sampler::is_blocked(rules, tokens.take(i), tokens[i] as int));
        if rules.suppress.contains(tokens[i]) {
            let j = choose|j: int|
                0 <= j < rules.suppress.len() && rules.suppress[j] == tokens[i];
            assert(rules.suppress[j] == tokens[i] as int);
        }
    }
    if rules.ngram > 0 {
        assert forall|i: int| 0 <= i < tokens.len() implies !crate::decode_utils::repeats(
            tokens.take(i),
            rules.ngram,
            #[trigger] tokens[i],
        ) by {
            assert(!crate::decoder::sampler::is_blocked(rules, tokens.take(i), tokens[i] as int));
        }
        assert forall|a: int, b: int|
            0 <= a < b < crate::decode_utils::ngrams(
                tokens,
                rules.ngram,
            ).len() implies #[trigger] crate::decode_utils::ngrams(tokens, rules.ngram)[a]
            != #[trigger] crate::decode_utils::ngrams(tokens, rules.ngram)[b] by {
            crate::decode_utils::law_ngrams_are_distinct(tokens, rules.ngram, a, b);
        }
    }
}

} // verus!
