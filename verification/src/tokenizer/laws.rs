//! What tokens stand for, one by one and between timestamps.

use crate::tokenizer;
use core::ops::Mul;
use vstd::prelude::*;

verus! {

/// A token stands for its entry of the vocabulary, unless the entry begins with `<|`; a token without
/// an entry stands for nothing.
pub proof fn law_token_stands_for_its_entry(id: u32, vocab: Seq<Seq<char>>)
    ensures
        id >= vocab.len() ==> tokenizer::decoded(seq![id], vocab) == Seq::<char>::empty(),
        id < vocab.len() && vocab[id as int].len() >= 2 && vocab[id as int][0] == '<'
            && vocab[id as int][1] == '|' ==> tokenizer::decoded(seq![id], vocab) == Seq::<
            char,
        >::empty(),
        id < vocab.len() && !(vocab[id as int].len() >= 2 && vocab[id as int][0] == '<'
            && vocab[id as int][1] == '|') ==> tokenizer::decoded(seq![id], vocab)
            == vocab[id as int],
        tokenizer::decoded(Seq::<u32>::empty(), vocab) == Seq::<char>::empty(),
{
    let one = seq![id];
    assert(one.drop_last() =~= Seq::<u32>::empty());
    assert(one.last() == id);
    assert(tokenizer::decoded(one.drop_last(), vocab) == Seq::<char>::empty());
    assert(tokenizer::decoded(one, vocab) =~= tokenizer::token_text(id, vocab));
}

/// Timestamp tokens count time from 50364 on in ticks of 20 ms: the next token is one tick later, and
/// no token below marks a time.
pub proof fn law_timestamps_count_ticks(token: u32)
    ensures
        tokenizer::marks_time(token) <==> token >= 50364,
        token == 50364 ==> tokenizer::ticks(token) == 0,
        50364 <= token < u32::MAX ==> tokenizer::ticks((token + 1) as u32) == tokenizer::ticks(token)
            + 1,
        token < 50364 ==> tokenizer::ticks(token) == 0,
{
}

/// A time in seconds is the number of ticks times the length of a tick, which is what the bit pattern
/// of 0.02 stands for.
pub proof fn law_seconds_are_ticks<T: Mul<Output = T>, B: Fn(u32) -> T, N: Fn(u32) -> T>(
    from_bits: B,
    count: N,
    v: spec_fn(T) -> real,
    tick: real,
    token: u32,
    r: T,
)
    requires
        crate::exact::multiplies(v),
        forall|x: T| #[trigger] call_ensures(from_bits, (0x3CA3_D70Au32,), x) ==> v(x) == tick,
        forall|x: T| #[trigger] call_ensures(from_bits, (0u32,), x) ==> v(x) == 0real,
        forall|n: u32, x: T| #[trigger] call_ensures(count, (n,), x) ==> v(x) == (n as int) as real,
        tokenizer::is_timestamp_seconds(from_bits, count, token, r),
    ensures
        token >= 50364 ==> v(r) == ((token - 50364) as real) * tick,
        token < 50364 ==> v(r) == 0real,
{
    if token >= 50364 {
        let (n, k) = choose|n: T, k: T| #[trigger]
            crate::num::is_product(n, k, r) && call_ensures(
                count,
                (tokenizer::ticks(token),),
                n,
            ) && call_ensures(from_bits, (tokenizer::TIMESTAMP_RESOLUTION_BITS,), k);
        assert(v(n) == (token - 50364) as real);
    }
}

/// No token of `ids` marks a time.
pub open spec fn is_timeless(ids: Seq<u32>) -> bool {
    forall|i: int| 0 <= i < ids.len() ==> #[trigger] ids[i] < 50364
}

/// The segment of a text between two times, none if there is nothing but white space.
pub open spec fn segment_of(start: int, end: int, text: Seq<char>) -> Seq<(u32, u32, Seq<char>)> {
    if crate::text::trimmed(text).len() == 0 {
        Seq::empty()
    } else {
        seq![(start as u32, end as u32, crate::text::trimmed(text))]
    }
}

/// Where the first timestamp stands behind tokens that mark no time.
proof fn lemma_first_time(a: Seq<u32>, b: Seq<u32>)
    requires
        is_timeless(a),
        b.len() > 0 ==> b[0] >= 50364,
    ensures
        b.len() > 0 ==> tokenizer::next_timestamp(a + b) == Some(a.len() as int),
        b.len() == 0 ==> tokenizer::next_timestamp(a + b) is None,
    decreases a.len(),
{
    if a.len() > 0 {
        assert(a[0] < 50364);
        assert forall|i: int| 0 <= i < a.skip(1).len() implies #[trigger] a.skip(1)[i] < 50364 by {
            assert(a.skip(1)[i] == a[i + 1]);
        }
        lemma_first_time(a.skip(1), b);
        assert((a + b).skip(1) =~= a.skip(1) + b);
    } else {
        assert(a + b =~= b);
    }
}

/// Without timestamps the whole text is one segment from 0 to 0.
pub proof fn law_text_without_times_is_one_segment(ids: Seq<u32>, vocab: Seq<Seq<char>>)
    requires
        is_timeless(ids),
    ensures
        tokenizer::segments(ids, vocab) == segment_of(0, 0, tokenizer::decoded(ids, vocab)),
{
    lemma_first_time(ids, Seq::empty());
    assert(ids + Seq::<u32>::empty() =~= ids);
}

/// Text before the first timestamp is dropped.
pub proof fn law_text_before_times_is_dropped(
    a: Seq<u32>,
    time: u32,
    b: Seq<u32>,
    vocab: Seq<Seq<char>>,
)
    requires
        is_timeless(a),
        time >= 50364,
    ensures
        tokenizer::segments(a + (seq![time] + b), vocab) == tokenizer::segments(
            seq![time] + b,
            vocab,
        ),
{
    let rest = seq![time] + b;
    lemma_first_time(a, rest);
    lemma_first_time(Seq::empty(), rest);
    assert(Seq::<u32>::empty() + rest =~= rest);
    assert((a + rest).skip(a.len() as int + 1) =~= b);
    assert(rest.skip(1) =~= b);
    assert((a + rest)[a.len() as int] == time);
}

/// Text between two timestamps is one segment between their times, and the second timestamp opens the
/// next segment.
pub proof fn law_times_bracket_text(
    start: u32,
    text: Seq<u32>,
    end: u32,
    b: Seq<u32>,
    vocab: Seq<Seq<char>>,
)
    requires
        is_timeless(text),
        start >= 50364,
        end >= 50364,
    ensures
        tokenizer::segments(seq![start] + (text + (seq![end] + b)), vocab) == segment_of(
            start - 50364,
            end - 50364,
            tokenizer::decoded(text, vocab),
        ) + tokenizer::segments(seq![end] + b, vocab),
{
    let rest = seq![end] + b;
    let inner = text + rest;
    let all = seq![start] + inner;
    lemma_first_time(Seq::empty(), all);
    assert(Seq::<u32>::empty() + all =~= all);
    assert(all.skip(1) =~= inner);
    lemma_first_time(text, rest);
    assert(inner.take(text.len() as int) =~= text);
    assert(inner.skip(text.len() as int + 1) =~= b);
    assert(inner[text.len() as int] == end);
    lemma_first_time(Seq::empty(), rest);
    assert(Seq::<u32>::empty() + rest =~= rest);
    assert(rest.skip(1) =~= b);
}

/// Text behind the last timestamp is one segment from its time, with the end 0.
pub proof fn law_text_behind_times_has_no_end(start: u32, text: Seq<u32>, vocab: Seq<Seq<char>>)
    requires
        is_timeless(text),
        start >= 50364,
    ensures
        tokenizer::segments(seq![start] + text, vocab) == segment_of(
            start - 50364,
            0,
            tokenizer::decoded(text, vocab),
        ),
{
    let all = seq![start] + text;
    lemma_first_time(Seq::empty(), all);
    assert(Seq::<u32>::empty() + all =~= all);
    assert(all.skip(1) =~= text);
    lemma_first_time(text, Seq::empty());
    assert(text + Seq::<u32>::empty() =~= text);
}

/// Segments in seconds have the times of their ticks: the number of ticks times the length of a tick.
pub proof fn law_segment_times_are_ticks<T: Mul<Output = T>, B: Fn(u32) -> T, N: Fn(u32) -> T>(
    from_bits: B,
    count: N,
    v: spec_fn(T) -> real,
    tick: real,
    s: Seq<(u32, u32, Seq<char>)>,
    r: Seq<(T, T, String)>,
    i: int,
)
    requires
        crate::exact::multiplies(v),
        forall|x: T| #[trigger] call_ensures(from_bits, (0x3CA3_D70Au32,), x) ==> v(x) == tick,
        forall|n: u32, x: T| #[trigger] call_ensures(count, (n,), x) ==> v(x) == (n as int) as real,
        tokenizer::are_in_seconds(from_bits, count, s, r),
        0 <= i < s.len(),
    ensures
        r.len() == s.len(),
        v(r[i].0) == ((s[i].0 as int) as real) * tick,
        v(r[i].1) == ((s[i].1 as int) as real) * tick,
        r[i].2@ == s[i].2,
{
    let x = r[i];
    assert(tokenizer::is_seconds(from_bits, count, s[i].0, x.0));
    assert(tokenizer::is_seconds(from_bits, count, s[i].1, x.1));
}

} // verus!
