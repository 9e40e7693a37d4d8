//! How tokens are chosen with the caller's functions.

use crate::decoder::sampler::{Chooser, Sampling};
use crate::probability::laws;
use core::ops::{Add, Div, Mul, Sub};
use vstd::prelude::*;

verus! {

/// `number` gives the bit patterns of logits and of sampling parameters their numbers.
pub open spec fn reads_bits<T, F: Fn(u32) -> T>(
    from_bits: F,
    v: spec_fn(T) -> real,
    number: spec_fn(u32) -> real,
) -> bool {
    forall|b: u32, x: T| #[trigger] call_ensures(from_bits, (b,), x) ==> v(x) == number(b)
}

/// Sampling uses its own parameters: a token is drawn from the logits by the exponentials of the logits
/// divided by the temperature, of those that `top_k` and `top_p` leave, with a number of the caller's
/// source of random numbers.
pub proof fn law_sampling_uses_its_parameters<
    T: Add<Output = T> + Sub<Output = T> + Mul<Output = T> + Div<Output = T>,
    X: Fn(T, T) -> T,
    Y: Fn(T) -> T,
    N: Fn(T) -> T,
    B: Fn(T) -> u32,
    G: Fn(T, T) -> bool,
    L: Fn(T, T) -> bool,
    F: Fn(u32) -> T,
    U: Fn() -> T,
>(
    chooser: Chooser<T, X, Y, N, B, G, L, F, U>,
    v: spec_fn(T) -> real,
    exp: spec_fn(real) -> real,
    number: spec_fn(u32) -> real,
    sampling: Sampling,
    logits: Seq<u32>,
    token: u32,
)
    requires
        laws::is_exact(chooser.math, v, exp),
        reads_bits(chooser.math.from_bits, v, number),
        chooser.total(),
        number(0x3586_37BD) > 0real,
        0 < logits.len() <= u32::MAX,
        (chooser.choice().samples)(sampling, logits, token),
    ensures
        exists|uniform: T| #[trigger]
            call_ensures(chooser.uniform, (), uniform) && laws::is_drawn(
                logits.len() as int,
                |k: int|
                    exp(
                        number(logits[k]) / (if number(sampling.temperature) >= number(
                            0x3586_37BD,
                        ) {
                            number(sampling.temperature)
                        } else {
                            number(0x3586_37BD)
                        }),
                    ),
                sampling.top_k,
                number(sampling.top_p),
                v(uniform),
                token,
            ),
{
    let (x, temperature, top_p, uniform) = choose|x: Seq<T>, temperature: T, top_p: T, uniform: T|
        crate::bits::are_numbers(chooser.math.from_bits, logits, x) && call_ensures(
            chooser.math.from_bits,
            (sampling.temperature,),
            temperature,
        ) && call_ensures(chooser.math.from_bits, (sampling.top_p,), top_p) && call_ensures(
            chooser.uniform,
            (),
            uniform,
        ) && #[trigger] crate::probability::is_sample(
            chooser.math,
            x,
            temperature,
            sampling.top_k,
            top_p,
            uniform,
            token,
        );
    let lowest = number(0x3586_37BD);
    let t = if number(sampling.temperature) >= lowest {
        number(sampling.temperature)
    } else {
        lowest
    };
    let weight = |k: int|
        exp(
            number(logits[k]) / (if number(sampling.temperature) >= number(0x3586_37BD) {
                number(sampling.temperature)
            } else {
                number(0x3586_37BD)
            }),
        );
    assert(v(chooser.math.floor) == lowest);
    assert forall|k: int| 0 <= k < x.len() implies #[trigger] weight(k) == exp(v(x[k]) / t) by {
        assert(call_ensures(chooser.math.from_bits, (logits[k],), x[k]));
    }
    laws::law_sample_is_drawn_by_weight(
        chooser.math,
        v,
        exp,
        x,
        temperature,
        sampling.top_k,
        top_p,
        uniform,
        token,
        weight,
    );
    assert(call_ensures(chooser.uniform, (), uniform));
}

/// The log-probability of a token is that of its share in the logits, and a logit's bits are those that
/// the caller's function gives.
pub proof fn law_log_prob_is_share_of_logits<
    T: Add<Output = T> + Sub<Output = T> + Mul<Output = T> + Div<Output = T>,
    X: Fn(T, T) -> T,
    Y: Fn(T) -> T,
    N: Fn(T) -> T,
    B: Fn(T) -> u32,
    G: Fn(T, T) -> bool,
    L: Fn(T, T) -> bool,
    F: Fn(u32) -> T,
    U: Fn() -> T,
>(
    chooser: Chooser<T, X, Y, N, B, G, L, F, U>,
    v: spec_fn(T) -> real,
    exp: spec_fn(real) -> real,
    number: spec_fn(u32) -> real,
    logits: Seq<u32>,
    token: u32,
    p: T,
)
    requires
        laws::is_exact(chooser.math, v, exp),
        reads_bits(chooser.math.from_bits, v, number),
        token < logits.len(),
        (chooser.choice().has_log_prob)(logits, token, p),
    ensures
        exp(v(p)) * crate::exact::total(logits.len(), |k: int| exp(number(logits[k]))) == exp(
            number(logits[token as int]),
        ),
        forall|x: T, b: u32|
            (chooser.choice().has_bits)(x, b) == #[trigger] call_ensures(
                chooser.math.to_bits,
                (x,),
                b,
            ),
{
    let x = choose|x: Seq<T>|
        crate::bits::are_numbers(chooser.math.from_bits, logits, x)
            && #[trigger] crate::probability::is_token_log_prob(chooser.math, x, token, p);
    laws::law_token_log_prob_is_share(chooser.math, v, exp, x, token, p);
    let f = |k: int| exp(v(x[k]));
    let g = |k: int| exp(number(logits[k]));
    assert forall|k: int| 0 <= k < logits.len() implies #[trigger] f(k) == g(k) by {
        assert(call_ensures(chooser.math.from_bits, (logits[k],), x[k]));
    }
    crate::exact::lemma_total_same(logits.len(), f, g);
    assert(call_ensures(chooser.math.from_bits, (logits[token as int],), x[token as int]));
}

} // verus!
