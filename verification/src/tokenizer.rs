//! Token ids to text: pure vocabulary pass-through.
//!
//! Special tokens, whose text begins with `<|`, and ids outside the vocabulary stand for no
//! text. Neither is an error.

pub mod laws;

use crate::model::VocabEntry;
use core::ops::Mul;
use vstd::prelude::*;
use vstd::string::*;

verus! {

/// First timestamp token id.
pub const TIMESTAMP_BEGIN: u32 = 50364;

/// Special token ids.
#[derive(Debug, Clone, Copy, PartialEq, Eq, Structural)]
pub struct SpecialTokens {
    /// `<|startoftranscript|>` — begins the decoder sequence.
    pub sot: u32,
    /// `<|endoftext|>` — signals the end of the decoder output.
    pub eot: u32,
    /// `<|transcribe|>` — task token selecting transcription mode.
    pub transcribe: u32,
    /// `<|translate|>` — task token selecting translation mode.
    pub translate: u32,
    /// `<|notimestamps|>` — suppresses timestamp tokens in the output.
    pub no_timestamps: u32,
    /// `<|nospeech|>` — emitted when no speech is detected in the audio.
    pub no_speech: u32,
    /// `<|startofprev|>` — precedes previous-segment context tokens.
    pub sot_prev: u32,
}

/// The special tokens of the multilingual vocabulary.
pub open spec fn multilingual() -> SpecialTokens {
    SpecialTokens {
        eot: 50256,
        sot: 50258,
        translate: 50358,
        transcribe: 50359,
        sot_prev: 50361,
        no_speech: 50362,
        no_timestamps: 50363,
    }
}

impl SpecialTokens {
    /// Special token ids of the multilingual vocabulary. They are the same for all models, so
    /// the vocabulary size is not used.
    pub fn new(_n_vocab: usize) -> (r: Self)
        ensures
            r == multilingual(),
    {
        SpecialTokens {
            eot: 50256,
            sot: 50258,
            translate: 50358,
            transcribe: 50359,
            no_speech: 50362,
            no_timestamps: 50363,
            sot_prev: 50361,
        }
    }

    /// Returns `true` if `token` is a timestamp token (id >= `TIMESTAMP_BEGIN`).
    pub fn is_timestamp(token: u32) -> (r: bool)
        ensures
            r == marks_time(token),
    {
        token >= TIMESTAMP_BEGIN
    }

    /// The time of a timestamp token in ticks of 20 ms; 0 for any other token.
    pub fn timestamp_ticks(token: u32) -> (r: u32)
        ensures
            r == ticks(token),
    {
        if token < TIMESTAMP_BEGIN {
            return 0;
        }
        token - TIMESTAMP_BEGIN
    }

    /// Convert a timestamp token id to seconds; 0 for any other token.
    pub fn timestamp_seconds<T: Copy + Mul<Output = T>, B: Fn(u32) -> T, N: Fn(u32) -> T>(
        token: u32,
        from_bits: &B,
        count: &N,
    ) -> (r: T)
        requires
            forall|b: u32| #[trigger] call_requires(*from_bits, (b,)),
            forall|n: u32| #[trigger] call_requires(*count, (n,)),
            crate::num::total_mul::<T>(),
        ensures
            is_timestamp_seconds(*from_bits, *count, token, r),
    {
        if token < TIMESTAMP_BEGIN {
            return from_bits(crate::bits::ZERO_BITS);
        }
        ticks_to_seconds(from_bits, count, token - TIMESTAMP_BEGIN)
    }

    /// Token id of a language code; an unknown code gives English.
    pub fn language_token(&self, lang: &str) -> (token: u32)
        ensures
            token == crate::languages::token_of(lang@),
    {
        crate::languages::find_token(lang)
    }
}

/// Whether a token marks a time.
pub open spec fn marks_time(token: u32) -> bool {
    token >= TIMESTAMP_BEGIN
}

/// The time that a token marks, in ticks of 20 ms.
pub open spec fn ticks(token: u32) -> u32 {
    if marks_time(token) {
        (token - TIMESTAMP_BEGIN) as u32
    } else {
        0
    }
}

/// Bit pattern of the length of a tick in seconds, 0.02.
pub const TIMESTAMP_RESOLUTION_BITS: u32 = 0x3CA3_D70A;

/// `r` is the time of so many ticks in seconds: their number times 0.02.
pub open spec fn is_seconds<T: Mul<Output = T>, B: Fn(u32) -> T, N: Fn(u32) -> T>(
    from_bits: B,
    count: N,
    ticks: u32,
    r: T,
) -> bool {
    exists|n: T, k: T| #[trigger]
        crate::num::is_product(n, k, r) && call_ensures(count, (ticks,), n) && call_ensures(
            from_bits,
            (TIMESTAMP_RESOLUTION_BITS,),
            k,
        )
}

/// `r` is the time that a token marks in seconds, zero if it marks none.
pub open spec fn is_timestamp_seconds<T: Mul<Output = T>, B: Fn(u32) -> T, N: Fn(u32) -> T>(
    from_bits: B,
    count: N,
    token: u32,
    r: T,
) -> bool {
    if marks_time(token) {
        is_seconds(from_bits, count, ticks(token), r)
    } else {
        call_ensures(from_bits, (crate::bits::ZERO_BITS,), r)
    }
}

/// The time of so many ticks in seconds.
pub fn ticks_to_seconds<T: Copy + Mul<Output = T>, B: Fn(u32) -> T, N: Fn(u32) -> T>(
    from_bits: &B,
    count: &N,
    ticks: u32,
) -> (r: T)
    requires
        forall|b: u32| #[trigger] call_requires(*from_bits, (b,)),
        forall|n: u32| #[trigger] call_requires(*count, (n,)),
        crate::num::total_mul::<T>(),
    ensures
        is_seconds(*from_bits, *count, ticks, r),
{
    let n: T = count(ticks);
    let k: T = from_bits(TIMESTAMP_RESOLUTION_BITS);
    let r: T = n * k;
    assert(crate::num::is_product(n, k, r));
    r
}

/// The text that a token stands for.
pub open spec fn token_text(id: u32, vocab: Seq<Seq<char>>) -> Seq<char> {
    if id < vocab.len() && !crate::text::is_special(vocab[id as int]) {
        vocab[id as int]
    } else {
        Seq::empty()
    }
}

/// The texts of the tokens, one behind the other.
pub open spec fn decoded(ids: Seq<u32>, vocab: Seq<Seq<char>>) -> Seq<char>
    decreases ids.len(),
{
    if ids.len() == 0 {
        Seq::empty()
    } else {
        decoded(ids.drop_last(), vocab) + token_text(ids.last(), vocab)
    }
}

/// Decode token ids to a string: the texts of all tokens that stand for text.
pub fn decode(token_ids: &[u32], vocab: &[VocabEntry]) -> (r: String)
    ensures
        r@ == decoded(token_ids@, crate::model::texts(vocab@)),
{
    let ghost words = crate::model::texts(vocab@);
    let mut result: String = "".to_string();
    proof {
        reveal_strlit("");
        assert(result@ =~= decoded(token_ids@.take(0), words));
    }
    let mut i: usize = 0;
    while i < token_ids.len()
        invariant
            i <= token_ids@.len(),
            words == crate::model::texts(vocab@),
            result@ == decoded(token_ids@.take(i as int), words),
        decreases token_ids@.len() - i,
    {
        let id: usize = token_ids[i] as usize;
        proof {
            assert(token_ids@.take(i + 1).drop_last() =~= token_ids@.take(i as int));
        }
        if id < vocab.len() && !crate::text::is_special_text(vocab[id].text.as_str()) {
            assert(words[id as int] == vocab@[id as int].text@);
            result.append(vocab[id].text.as_str());
        } else {
            assert(result@ + Seq::<char>::empty() =~= result@);
        }
        i = i + 1;
    }
    assert(token_ids@.take(i as int) =~= token_ids@);
    result
}

/// A piece of a transcript: start and end in ticks of 20 ms, and the text.
pub type Segment = (u32, u32, String);

/// The first timestamp in `ids`.
pub open spec fn next_timestamp(ids: Seq<u32>) -> Option<int>
    decreases ids.len(),
{
    if ids.len() == 0 {
        None
    } else if marks_time(ids[0]) {
        Some(0)
    } else {
        match next_timestamp(ids.skip(1)) {
            Some(p) => Some(p + 1),
            None => None,
        }
    }
}

/// The segment of `ids` from `start` to `end`: none if its text is blank.
pub open spec fn piece(start: u32, end: u32, ids: Seq<u32>, vocab: Seq<Seq<char>>) -> Seq<
    (u32, u32, Seq<char>),
> {
    let text = crate::text::trimmed(decoded(ids, vocab));
    if text.len() == 0 {
        Seq::empty()
    } else {
        seq![(start, end, text)]
    }
}

/// The segments behind a timestamp of `start` ticks: the next timestamp closes one segment and
/// opens the next. Text behind the last timestamp has the end time 0.
pub open spec fn pieces(ids: Seq<u32>, start: u32, vocab: Seq<Seq<char>>) -> Seq<
    (u32, u32, Seq<char>),
>
    decreases ids.len(),
{
    match next_timestamp(ids) {
        None => piece(start, 0, ids, vocab),
        Some(p) => if 0 <= p < ids.len() {
            piece(start, ticks(ids[p]), ids.take(p), vocab) + pieces(
                ids.skip(p + 1),
                ticks(ids[p]),
                vocab,
            )
        } else {
            Seq::empty()
        },
    }
}

/// The segments of a token sequence. Text before the first timestamp is dropped; without any
/// timestamp the whole text is one segment from 0 to 0.
pub open spec fn segments(ids: Seq<u32>, vocab: Seq<Seq<char>>) -> Seq<(u32, u32, Seq<char>)> {
    match next_timestamp(ids) {
        None => piece(0, 0, ids, vocab),
        Some(p) => pieces(ids.skip(p + 1), ticks(ids[p]), vocab),
    }
}

/// The models of segments.
pub open spec fn segment_views(s: Seq<Segment>) -> Seq<(u32, u32, Seq<char>)> {
    s.map_values(|x: Segment| (x.0, x.1, x.2@))
}

/// Where the first timestamp stands.
proof fn lemma_next_timestamp(ids: Seq<u32>)
    ensures
        match next_timestamp(ids) {
            Some(p) => 0 <= p < ids.len() && marks_time(ids[p]) && forall|j: int|
                0 <= j < p ==> !marks_time(#[trigger] ids[j]),
            None => forall|j: int| 0 <= j < ids.len() ==> !marks_time(#[trigger] ids[j]),
        },
    decreases ids.len(),
{
    if ids.len() > 0 && !marks_time(ids[0]) {
        lemma_next_timestamp(ids.skip(1));
        let rest = next_timestamp(ids.skip(1));
        assert forall|j: int|
            0 <= j < (if let Some(p) = rest {
                p + 1
            } else {
                ids.len() as int
            }) implies !marks_time(#[trigger] ids[j]) by {
            if j > 0 {
                assert(ids.skip(1)[j - 1] == ids[j]);
            }
        }
    }
}

/// The first timestamp at or behind `from`.
fn find_timestamp(ids: &[u32], from: usize) -> (r: Option<usize>)
    requires
        from <= ids@.len(),
    ensures
        match next_timestamp(ids@.skip(from as int)) {
            Some(p) => r is Some && r->0 == from + p && 0 <= p && from + p < ids@.len(),
            None => r is None,
        },
{
    proof {
        lemma_next_timestamp(ids@.skip(from as int));
    }
    let mut i: usize = from;
    while i < ids.len()
        invariant
            from <= i <= ids@.len(),
            forall|j: int| from <= j < i ==> !marks_time(#[trigger] ids@[j]),
            match next_timestamp(ids@.skip(from as int)) {
                Some(p) => 0 <= p < ids@.len() - from && marks_time(ids@.skip(from as int)[p])
                    && forall|j: int|
                    0 <= j < p ==> !marks_time(#[trigger] ids@.skip(from as int)[j]),
                None => forall|j: int|
                    0 <= j < ids@.len() - from ==> !marks_time(
                        #[trigger] ids@.skip(from as int)[j],
                    ),
            },
        decreases ids@.len() - i,
    {
        if SpecialTokens::is_timestamp(ids[i]) {
            assert(ids@.skip(from as int)[i - from] == ids@[i as int]);
            return Some(i);
        }
        i = i + 1;
    }
    None
}

/// Appends the segment of `ids` from `start` to `end`, unless its text is blank.
fn push_piece(
    out: &mut Vec<Segment>,
    start: u32,
    end: u32,
    ids: &[u32],
    vocab: &[VocabEntry],
)
    ensures
        segment_views(final(out)@) == segment_views(old(out)@) + piece(
            start,
            end,
            ids@,
            crate::model::texts(vocab@),
        ),
{
    let full: String = decode(ids, vocab);
    let text: &str = full.as_str().trim();
    let ghost before = segment_views(out@);
    if text.unicode_len() > 0 {
        out.push((start, end, text.to_string()));
        assert(segment_views(out@) =~= before + seq![(start, end, text@)]);
    } else {
        assert(before + Seq::empty() =~= before);
    }
}

/// Parse token ids, which may contain timestamp tokens, into segments with times in ticks.
pub fn parse_ticks(token_ids: &[u32], vocab: &[VocabEntry]) -> (r: Vec<Segment>)
    ensures
        segment_views(r@) == segments(token_ids@, crate::model::texts(vocab@)),
{
    let ghost words = crate::model::texts(vocab@);
    let mut out: Vec<Segment> = Vec::new();
    assert(segment_views(out@) =~= Seq::empty());
    assert(token_ids@.skip(0) =~= token_ids@);
    let mut open: usize = match find_timestamp(token_ids, 0) {
        Some(p) => p,
        None => {
            push_piece(&mut out, 0, 0, token_ids, vocab);
            assert(segment_views(out@) =~= piece(0, 0, token_ids@, words));
            return out;
        },
    };
    loop
        invariant
            open < token_ids@.len(),
            words == crate::model::texts(vocab@),
            segment_views(out@) + pieces(
                token_ids@.skip(open + 1),
                ticks(token_ids@[open as int]),
                words,
            ) == segments(token_ids@, words),
        decreases token_ids@.len() - open,
    {
        let start: u32 = SpecialTokens::timestamp_ticks(token_ids[open]);
        let ghost rest = token_ids@.skip(open + 1);
        let ghost done = segment_views(out@);
        match find_timestamp(token_ids, open + 1) {
            Some(p) => {
                let end: u32 = SpecialTokens::timestamp_ticks(token_ids[p]);
                push_piece(&mut out, start, end, &token_ids[open + 1..p], vocab);
                proof {
                    let q = p - (open + 1);
                    assert(rest[q] == token_ids@[p as int]);
                    assert(rest.take(q) =~= token_ids@.subrange(open + 1, p as int));
                    assert(rest.skip(q + 1) =~= token_ids@.skip(p + 1));
                    let tail = pieces(token_ids@.skip(p + 1), end, words);
                    let first = piece(start, end, rest.take(q), words);
                    assert(done + (first + tail) =~= (done + first) + tail);
                }
                open = p;
            },
            None => {
                push_piece(&mut out, start, 0, &token_ids[open + 1..token_ids.len()], vocab);
                assert(rest =~= token_ids@.subrange(open + 1, token_ids@.len() as int));
                return out;
            },
        }
    }
}

/// `r` holds segments with their times in seconds.
pub open spec fn are_in_seconds<T: Mul<Output = T>, B: Fn(u32) -> T, N: Fn(u32) -> T>(
    from_bits: B,
    count: N,
    s: Seq<(u32, u32, Seq<char>)>,
    r: Seq<(T, T, String)>,
) -> bool {
    &&& r.len() == s.len()
    &&& forall|i: int|
        0 <= i < r.len() ==> {
            &&& is_seconds(from_bits, count, s[i].0, (#[trigger] r[i]).0)
            &&& is_seconds(from_bits, count, s[i].1, r[i].1)
            &&& r[i].2@ == s[i].2
        }
}

/// Parse token ids, which may contain timestamp tokens, into segments: start and end in seconds,
/// and the text.
///
/// Timestamp tokens bracket text: `<|0.00|> Hello world <|2.00|>`. A closing timestamp is also
/// the opening one of the next segment.
pub fn parse_segments<T: Copy + Mul<Output = T>, B: Fn(u32) -> T, N: Fn(u32) -> T>(
    token_ids: &[u32],
    vocab: &[VocabEntry],
    from_bits: &B,
    count: &N,
) -> (r: Vec<(T, T, String)>)
    requires
        forall|b: u32| #[trigger] call_requires(*from_bits, (b,)),
        forall|n: u32| #[trigger] call_requires(*count, (n,)),
        crate::num::total_mul::<T>(),
    ensures
        are_in_seconds(
            *from_bits,
            *count,
            segments(token_ids@, crate::model::texts(vocab@)),
            r@,
        ),
{
    let pieces: Vec<Segment> = parse_ticks(token_ids, vocab);
    let ghost views = segment_views(pieces@);
    let mut r: Vec<(T, T, String)> = Vec::with_capacity(pieces.len());
    let mut i: usize = 0;
    while i < pieces.len()
        invariant
            i <= pieces@.len(),
            views == segment_views(pieces@),
            forall|b: u32| #[trigger] call_requires(*from_bits, (b,)),
            forall|n: u32| #[trigger] call_requires(*count, (n,)),
            crate::num::total_mul::<T>(),
            r@.len() == i,
            forall|j: int|
                0 <= j < i ==> {
                    &&& is_seconds(*from_bits, *count, views[j].0, (#[trigger] r@[j]).0)
                    &&& is_seconds(*from_bits, *count, views[j].1, r@[j].1)
                    &&& r@[j].2@ == views[j].2
                },
        decreases pieces@.len() - i,
    {
        let piece: &Segment = &pieces[i];
        let start: T = ticks_to_seconds(from_bits, count, piece.0);
        let end: T = ticks_to_seconds(from_bits, count, piece.1);
        let text: String = piece.2.as_str().to_string();
        r.push((start, end, text));
        i = i + 1;
    }
    r
}

/// Decoding a sequence in two parts and joining the texts gives the text of the whole.
pub proof fn law_decode_splits(a: Seq<u32>, b: Seq<u32>, vocab: Seq<Seq<char>>)
    ensures
        decoded(a + b, vocab) == decoded(a, vocab) + decoded(b, vocab),
    decreases b.len(),
{
    if b.len() == 0 {
        assert(a + b =~= a);
        assert(decoded(a, vocab) + Seq::empty() =~= decoded(a, vocab));
    } else {
        law_decode_splits(a, b.drop_last(), vocab);
        assert((a + b).drop_last() =~= a + b.drop_last());
        assert(decoded(a, vocab) + (decoded(b.drop_last(), vocab) + token_text(b.last(), vocab))
            =~= (decoded(a, vocab) + decoded(b.drop_last(), vocab)) + token_text(b.last(), vocab));
    }
}

/// Every segment has a text, without white space around it.
pub proof fn law_segment_texts_are_trimmed(ids: Seq<u32>, vocab: Seq<Seq<char>>, k: int)
    requires
        0 <= k < segments(ids, vocab).len(),
    ensures
        segments(ids, vocab)[k].2.len() > 0,
        crate::text::trimmed(segments(ids, vocab)[k].2) == segments(ids, vocab)[k].2,
{
    match next_timestamp(ids) {
        None => {
            crate::text::law_trimmed_is_trim(decoded(ids, vocab));
        },
        Some(p) => {
            lemma_pieces_are_trimmed(ids.skip(p + 1), ticks(ids[p]), vocab, k);
        },
    }
}

/// The texts of segments behind a timestamp.
proof fn lemma_pieces_are_trimmed(ids: Seq<u32>, start: u32, vocab: Seq<Seq<char>>, k: int)
    requires
        0 <= k < pieces(ids, start, vocab).len(),
    ensures
        pieces(ids, start, vocab)[k].2.len() > 0,
        crate::text::trimmed(pieces(ids, start, vocab)[k].2) == pieces(ids, start, vocab)[k].2,
    decreases ids.len(),
{
    match next_timestamp(ids) {
        None => {
            crate::text::law_trimmed_is_trim(decoded(ids, vocab));
        },
        Some(p) => {
            if 0 <= p < ids.len() {
                crate::text::law_trimmed_is_trim(decoded(ids.take(p), vocab));
                let first = piece(start, ticks(ids[p]), ids.take(p), vocab);
                if k >= first.len() {
                    lemma_pieces_are_trimmed(
                        ids.skip(p + 1),
                        ticks(ids[p]),
                        vocab,
                        k - first.len(),
                    );
                }
            }
        },
    }
}

/// The timestamps of a token sequence do not decrease.
pub open spec fn times_in_order(ids: Seq<u32>) -> bool {
    forall|i: int, j: int|
        0 <= i <= j < ids.len() && marks_time(ids[i]) && marks_time(ids[j]) ==> #[trigger] ids[i]
            <= #[trigger] ids[j]
}

/// Where the timestamps do not decrease, segments lie in order: a segment ends no earlier than it
/// starts, and the next one starts no earlier than it ends. Only the last segment can have no end
/// time, which counts as 0.
pub proof fn law_segments_lie_in_order(ids: Seq<u32>, vocab: Seq<Seq<char>>)
    requires
        times_in_order(ids),
    ensures
        in_order(segments(ids, vocab)),
{
    match next_timestamp(ids) {
        None => {},
        Some(p) => {
            lemma_next_timestamp(ids);
            let rest = ids.skip(p + 1);
            assert forall|i: int| 0 <= i < rest.len() && marks_time(rest[i]) implies ticks(ids[p])
                <= ticks(#[trigger] rest[i]) by {
                assert(rest[i] == ids[p + 1 + i]);
            }
            assert(times_in_order(rest)) by {
                assert forall|i: int, j: int|
                    0 <= i <= j < rest.len() && marks_time(rest[i]) && marks_time(
                        rest[j],
                    ) implies #[trigger] rest[i] <= #[trigger] rest[j] by {
                    assert(rest[i] == ids[p + 1 + i] && rest[j] == ids[p + 1 + j]);
                }
            }
            lemma_pieces_lie_in_order(rest, ticks(ids[p]), vocab);
        },
    }
}

/// Segments lie in order.
pub open spec fn in_order(s: Seq<(u32, u32, Seq<char>)>) -> bool {
    &&& forall|k: int|
        0 <= k < s.len() ==> (#[trigger] s[k]).0 <= s[k].1 || (k == s.len() - 1 && s[k].1 == 0)
    &&& forall|k: int, l: int|
        0 <= k < l < s.len() ==> (#[trigger] s[k]).1 <= (#[trigger] s[l]).0
}

/// Segments behind a timestamp lie in order, and none starts before it.
proof fn lemma_pieces_lie_in_order(ids: Seq<u32>, start: u32, vocab: Seq<Seq<char>>)
    requires
        times_in_order(ids),
        forall|i: int|
            0 <= i < ids.len() && marks_time(ids[i]) ==> start <= ticks(#[trigger] ids[i]),
    ensures
        in_order(pieces(ids, start, vocab)),
        forall|k: int|
            0 <= k < pieces(ids, start, vocab).len() ==> start <= (#[trigger] pieces(
                ids,
                start,
                vocab,
            )[k]).0,
    decreases ids.len(),
{
    lemma_next_timestamp(ids);
    match next_timestamp(ids) {
        None => {},
        Some(p) => {
            let time = ticks(ids[p]);
            let rest = ids.skip(p + 1);
            assert(start <= time);
            assert forall|i: int| 0 <= i < rest.len() && marks_time(rest[i]) implies time <= ticks(
                #[trigger] rest[i],
            ) by {
                assert(rest[i] == ids[p + 1 + i]);
            }
            assert(times_in_order(rest)) by {
                assert forall|i: int, j: int|
                    0 <= i <= j < rest.len() && marks_time(rest[i]) && marks_time(
                        rest[j],
                    ) implies #[trigger] rest[i] <= #[trigger] rest[j] by {
                    assert(rest[i] == ids[p + 1 + i] && rest[j] == ids[p + 1 + j]);
                }
            }
            lemma_pieces_lie_in_order(rest, time, vocab);
            let first = piece(start, time, ids.take(p), vocab);
            let tail = pieces(rest, time, vocab);
            let all = first + tail;
            assert(all == pieces(ids, start, vocab));
            assert forall|k: int| 0 <= k < all.len() implies (start <= (#[trigger] all[k]).0 && (
            all[k].0 <= all[k].1 || (k == all.len() - 1 && all[k].1 == 0))) by {
                if k >= first.len() {
                    assert(all[k] == tail[k - first.len()]);
                }
            }
            assert forall|k: int, l: int| 0 <= k < l < all.len() implies (#[trigger] all[k]).1
                <= (#[trigger] all[l]).0 by {
                assert(all[l] == tail[l - first.len()]);
                if k >= first.len() {
                    assert(all[k] == tail[k - first.len()]);
                }
            }
        },
    }
}

} // verus!
