//! The decoder's prompt: conditioning text, language, task.

use crate::model::VocabEntry;
use crate::tokenizer::SpecialTokens;
use vstd::prelude::*;
use vstd::string::*;

verus! {

/// The bytes of the vocabulary's texts.
pub open spec fn text_bytes(vocab: Seq<VocabEntry>) -> Seq<Seq<u8>> {
    vocab.map_values(|e: VocabEntry| vstd::utf8::encode_utf8(e.text@))
}

/// Whether `v` is not empty and `rest` begins with it.
pub open spec fn leads(v: Seq<u8>, rest: Seq<u8>) -> bool {
    v.len() > 0 && v.len() <= rest.len() && rest.take(v.len() as int) == v
}

/// The longest of the first `n` entries that `rest` begins with, the first one among those of
/// equal length; -1 if there is none.
pub open spec fn longest(rest: Seq<u8>, vocab: Seq<Seq<u8>>, n: int) -> int
    decreases n,
{
    if n <= 0 {
        -1
    } else {
        let p = longest(rest, vocab, n - 1);
        if leads(vocab[n - 1], rest) && (p < 0 || vocab[n - 1].len() > vocab[p].len()) {
            n - 1
        } else {
            p
        }
    }
}

/// The entry that the encoding of `rest` begins with, or -1.
pub open spec fn best_entry(rest: Seq<u8>, vocab: Seq<Seq<u8>>) -> int {
    longest(rest, vocab, vocab.len() as int)
}

/// An entry that was found leads, and no other leading entry is longer.
pub proof fn lemma_longest(rest: Seq<u8>, vocab: Seq<Seq<u8>>, n: int)
    requires
        0 <= n <= vocab.len(),
    ensures
        ({
            let p = longest(rest, vocab, n);
            &&& -1 <= p < n
            &&& p >= 0 ==> leads(vocab[p], rest) && forall|j: int|
                0 <= j < n && leads(#[trigger] vocab[j], rest) ==> vocab[j].len() <= vocab[p].len()
            &&& p >= 0 ==> forall|j: int|
                0 <= j < p && leads(#[trigger] vocab[j], rest) ==> vocab[j].len() < vocab[p].len()
            &&& p < 0 ==> forall|j: int| 0 <= j < n ==> !leads(#[trigger] vocab[j], rest)
        }),
    decreases n,
{
    if n > 0 {
        lemma_longest(rest, vocab, n - 1);
    }
}

/// The tokens that a greedy longest-match encoding gives. A byte where no entry leads is skipped.
pub open spec fn encoded(rest: Seq<u8>, vocab: Seq<Seq<u8>>) -> Seq<u32>
    decreases rest.len(),
{
    if rest.len() == 0 {
        Seq::empty()
    } else {
        let p = best_entry(rest, vocab);
        proof {
            lemma_longest(rest, vocab, vocab.len() as int);
        }
        if p < 0 {
            encoded(rest.skip(1), vocab)
        } else {
            seq![p as u32] + encoded(rest.skip(vocab[p].len() as int), vocab)
        }
    }
}

/// Whether `entry` is not empty and stands at `pos`.
fn leads_at(bytes: &[u8], pos: usize, entry: &[u8]) -> (r: bool)
    requires
        pos <= bytes@.len(),
    ensures
        r == leads(entry@, bytes@.skip(pos as int)),
{
    let len: usize = bytes.len();
    let n: usize = entry.len();
    let ghost rest = bytes@.skip(pos as int);
    if n == 0 || n > len - pos {
        return false;
    }
    let mut i: usize = 0;
    while i < n
        invariant
            i <= n,
            n == entry@.len(),
            len == bytes@.len(),
            pos + n <= len,
            rest == bytes@.skip(pos as int),
            forall|j: int| 0 <= j < i ==> rest[j] == entry@[j],
        decreases n - i,
    {
        assert(rest[i as int] == bytes@[pos + i]);
        if bytes[pos + i] != entry[i] {
            assert(rest.take(n as int)[i as int] != entry@[i as int]);
            return false;
        }
        i = i + 1;
    }
    assert(rest.take(n as int) =~= entry@);
    true
}

/// Encode text into token ids by greedy longest-match against the model vocabulary.
/// This is a simple tokenizer suitable for prompt conditioning.
pub fn encode_prompt_text(text: &str, vocab: &[VocabEntry]) -> (tokens: Vec<u32>)
    ensures
        tokens@ == encoded(vstd::utf8::encode_utf8(text@), text_bytes(vocab@)),
{
    let bytes: &[u8] = text.as_bytes();
    let ghost entries = text_bytes(vocab@);
    let ghost all = bytes@;
    let len: usize = bytes.len();
    let mut tokens: Vec<u32> = Vec::new();
    let mut pos: usize = 0;
    assert(all.skip(0) =~= all);
    assert(tokens@ + encoded(all.skip(0), entries) =~= encoded(all, entries));
    while pos < len
        invariant
            pos <= len,
            len == bytes@.len(),
            all == bytes@,
            entries == text_bytes(vocab@),
            tokens@ + encoded(all.skip(pos as int), entries) == encoded(all, entries),
        decreases len - pos,
    {
        let ghost rest = all.skip(pos as int);
        let mut best_len: usize = 0;
        let mut best: usize = 0;
        let mut i: usize = 0;
        while i < vocab.len()
            invariant
                i <= vocab@.len(),
                pos < len,
                len == bytes@.len(),
                all == bytes@,
                rest == all.skip(pos as int),
                entries == text_bytes(vocab@),
                best_len == 0 ==> longest(rest, entries, i as int) == -1,
                best_len > 0 ==> best == longest(rest, entries, i as int) && best < i && best_len
                    == entries[best as int].len() && best_len <= len - pos,
            decreases vocab@.len() - i,
        {
            let entry: &[u8] = vocab[i].text.as_str().as_bytes();
            assert(entry@ == entries[i as int]);
            if entry.len() > best_len && leads_at(bytes, pos, entry) {
                best_len = entry.len();
                best = i;
            }
            i = i + 1;
        }
        let ghost before = tokens@;
        if best_len == 0 {
            assert(rest.skip(1) =~= all.skip(pos + 1));
            pos = pos + 1;
        } else {
            tokens.push(best as u32);
            assert(rest.skip(best_len as int) =~= all.skip(pos + best_len));
            assert(before + (seq![best as u32] + encoded(rest.skip(best_len as int), entries))
                =~= tokens@ + encoded(rest.skip(best_len as int), entries));
            pos = pos + best_len;
        }
    }
    assert(tokens@ + encoded(all.skip(pos as int), entries) =~= tokens@);
    tokens
}

/// The prompt: conditioning tokens behind their marker, then start, language and task, and the
/// marker that suppresses timestamps.
pub open spec fn prompt_of(
    special: SpecialTokens,
    lang_token: u32,
    timestamps: bool,
    initial: Seq<u32>,
) -> Seq<u32> {
    (if initial.len() == 0 {
        Seq::empty()
    } else {
        seq![special.sot_prev] + initial
    }) + seq![special.sot, lang_token, special.transcribe] + (if timestamps {
        Seq::empty()
    } else {
        seq![special.no_timestamps]
    })
}

/// Builds the decoder's prompt.
pub fn build_prompt(
    special: &SpecialTokens,
    lang_token: u32,
    timestamps: bool,
    initial_tokens: &[u32],
) -> (prompt: Vec<u32>)
    ensures
        prompt@ == prompt_of(*special, lang_token, timestamps, initial_tokens@),
{
    let mut prompt: Vec<u32> = Vec::new();
    if initial_tokens.len() > 0 {
        prompt.push(special.sot_prev);
        prompt.extend_from_slice(initial_tokens);
    }
    prompt.push(special.sot);
    prompt.push(lang_token);
    prompt.push(special.transcribe);
    if !timestamps {
        prompt.push(special.no_timestamps);
    }
    assert(prompt@ =~= prompt_of(*special, lang_token, timestamps, initial_tokens@));
    prompt
}

/// Whether the encoding of `rest` skips no byte.
pub open spec fn covers(vocab: Seq<Seq<u8>>, rest: Seq<u8>) -> bool
    decreases rest.len(),
{
    let p = best_entry(rest, vocab);
    proof {
        lemma_longest(rest, vocab, vocab.len() as int);
    }
    rest.len() == 0 || (p >= 0 && covers(vocab, rest.skip(vocab[p].len() as int)))
}

/// The bytes of joined texts are the joined bytes.
proof fn lemma_bytes_join(a: Seq<char>, b: Seq<char>)
    ensures
        vstd::utf8::encode_utf8(a + b) == vstd::utf8::encode_utf8(a) + vstd::utf8::encode_utf8(b),
    decreases a.len(),
{
    if a.len() == 0 {
        assert(a + b =~= b);
        assert(vstd::utf8::encode_utf8(a) + vstd::utf8::encode_utf8(b)
            =~= vstd::utf8::encode_utf8(b));
    } else {
        lemma_bytes_join(a.drop_first(), b);
        assert((a + b).drop_first() =~= a.drop_first() + b);
        assert(vstd::utf8::encode_utf8(a + b) =~= vstd::utf8::encode_utf8(a)
            + vstd::utf8::encode_utf8(b));
    }
}

/// The texts of an encoding that skips nothing have the bytes that were encoded.
proof fn lemma_encoding_bytes(rest: Seq<u8>, vocab: Seq<VocabEntry>)
    requires
        vocab.len() <= 0x1_0000_0000,
        covers(text_bytes(vocab), rest),
        forall|i: int| 0 <= i < vocab.len() ==> !crate::text::is_special((#[trigger] vocab[i]).text@),
    ensures
        vstd::utf8::encode_utf8(
            crate::tokenizer::decoded(encoded(rest, text_bytes(vocab)), crate::model::texts(vocab)),
        ) == rest,
    decreases rest.len(),
{
    let entries = text_bytes(vocab);
    let words = crate::model::texts(vocab);
    if rest.len() == 0 {
        assert(vstd::utf8::encode_utf8(Seq::empty()) =~= rest);
    } else {
        let p = best_entry(rest, entries);
        lemma_longest(rest, entries, entries.len() as int);
        let tail = rest.skip(entries[p].len() as int);
        lemma_encoding_bytes(tail, vocab);
        let first = seq![p as u32];
        let others = encoded(tail, entries);
        crate::tokenizer::law_decode_splits(first, others, words);
        assert(first.drop_last() =~= Seq::empty());
        assert(!crate::text::is_special(vocab[p].text@));
        assert(words[p] == vocab[p].text@);
        assert(first.last() as int == p);
        assert(crate::tokenizer::token_text(first.last(), words) == vocab[p].text@);
        assert(crate::tokenizer::decoded(first.drop_last(), words) =~= Seq::empty());
        assert(crate::tokenizer::decoded(first, words) =~= vocab[p].text@);
        lemma_bytes_join(vocab[p].text@, crate::tokenizer::decoded(others, words));
        assert(entries[p] + tail =~= rest);
    }
}

/// Text that the vocabulary covers comes back when its encoding is decoded, provided that no
/// entry is special.
pub proof fn law_prompt_text_survives(text: Seq<char>, vocab: Seq<VocabEntry>)
    requires
        vocab.len() <= 0x1_0000_0000,
        covers(text_bytes(vocab), vstd::utf8::encode_utf8(text)),
        forall|i: int| 0 <= i < vocab.len() ==> !crate::text::is_special((#[trigger] vocab[i]).text@),
    ensures
        crate::tokenizer::decoded(
            encoded(vstd::utf8::encode_utf8(text), text_bytes(vocab)),
            crate::model::texts(vocab),
        ) == text,
{
    let back = crate::tokenizer::decoded(
        encoded(vstd::utf8::encode_utf8(text), text_bytes(vocab)),
        crate::model::texts(vocab),
    );
    lemma_encoding_bytes(vstd::utf8::encode_utf8(text), vocab);
    vstd::utf8::encode_utf8_decode_utf8(text);
    vstd::utf8::encode_utf8_decode_utf8(back);
}

/// Whether a character is an entry of its own.
pub open spec fn is_entry(c: char, vocab: Seq<VocabEntry>) -> bool {
    exists|i: int| 0 <= i < vocab.len() && (#[trigger] vocab[i]).text@ == seq![c]
}

/// Bytes that begin with those of a text go on with those of the rest of the text.
proof fn lemma_text_goes_on(word: Seq<char>, text: Seq<char>) -> (tail: Seq<char>)
    requires
        leads(vstd::utf8::encode_utf8(word), vstd::utf8::encode_utf8(text)),
    ensures
        text == word + tail,
        vstd::utf8::encode_utf8(tail) == vstd::utf8::encode_utf8(text).skip(
            vstd::utf8::encode_utf8(word).len() as int,
        ),
{
    let a = vstd::utf8::encode_utf8(word);
    let b = vstd::utf8::encode_utf8(text);
    let n = a.len() as int;
    let rest = b.subrange(n, b.len() as int);
    vstd::utf8::encode_utf8_valid_utf8(word);
    vstd::utf8::encode_utf8_valid_utf8(text);
    assert(b.subrange(0, n) =~= a);
    if !vstd::utf8::valid_utf8(rest) {
        vstd::utf8::partial_valid_partial_invalid_utf8(b, n);
    }
    let tail = vstd::utf8::decode_utf8(rest);
    vstd::utf8::decode_utf8_encode_utf8(rest);
    lemma_bytes_join(word, tail);
    assert(a + rest =~= b);
    vstd::utf8::encode_utf8_decode_utf8(text);
    vstd::utf8::encode_utf8_decode_utf8(word + tail);
    assert(rest =~= b.skip(n));
    tail
}

/// A vocabulary that has every character of a text as an entry covers the text, whatever longer
/// entries it has besides.
pub proof fn law_known_characters_are_covered(text: Seq<char>, vocab: Seq<VocabEntry>)
    requires
        forall|i: int| 0 <= i < text.len() ==> is_entry(#[trigger] text[i], vocab),
    ensures
        covers(text_bytes(vocab), vstd::utf8::encode_utf8(text)),
    decreases text.len(),
{
    let entries = text_bytes(vocab);
    let bytes = vstd::utf8::encode_utf8(text);
    if text.len() > 0 {
        assert(is_entry(text[0], vocab));
        let j = choose|j: int| 0 <= j < vocab.len() && (#[trigger] vocab[j]).text@ == seq![text[0]];
        let first = seq![text[0]];
        lemma_bytes_join(first, text.drop_first());
        assert(first + text.drop_first() =~= text);
        vstd::utf8::encode_utf8_first_scalar(first);
        assert(bytes.take(vstd::utf8::encode_utf8(first).len() as int)
            =~= vstd::utf8::encode_utf8(first));
        assert(vstd::utf8::encode_utf8(first).len() > 0);
        assert(leads(entries[j], bytes));
        lemma_longest(bytes, entries, entries.len() as int);
        let p = best_entry(bytes, entries);
        assert(entries[p] == vstd::utf8::encode_utf8(vocab[p].text@));
        let tail = lemma_text_goes_on(vocab[p].text@, text);
        assert(vocab[p].text@.len() > 0);
        assert forall|i: int| 0 <= i < tail.len() implies is_entry(#[trigger] tail[i], vocab) by {
            assert(tail[i] == text[vocab[p].text@.len() + i]);
        }
        law_known_characters_are_covered(tail, vocab);
    }
}

/// Text whose characters are all entries comes back when its encoding is decoded, provided that
/// no entry is special.
pub proof fn law_known_characters_survive(text: Seq<char>, vocab: Seq<VocabEntry>)
    requires
        vocab.len() <= 0x1_0000_0000,
        forall|i: int| 0 <= i < text.len() ==> is_entry(#[trigger] text[i], vocab),
        forall|i: int| 0 <= i < vocab.len() ==> !crate::text::is_special((#[trigger] vocab[i]).text@),
    ensures
        crate::tokenizer::decoded(
            encoded(vstd::utf8::encode_utf8(text), text_bytes(vocab)),
            crate::model::texts(vocab),
        ) == text,
{
    law_known_characters_are_covered(text, vocab);
    law_prompt_text_survives(text, vocab);
}

/// The encoding of bytes begins with the longest entry that they begin with, the first one among
/// those of equal length, and goes on behind it; a byte that no entry begins at is left out.
pub proof fn law_encoding_takes_longest_entry(rest: Seq<u8>, vocab: Seq<Seq<u8>>, p: int)
    requires
        0 <= p < vocab.len() <= 0x1_0000_0000,
        vocab[p].len() > 0,
        vocab[p].is_prefix_of(rest),
        forall|j: int|
            0 <= j < vocab.len() && #[trigger] vocab[j].is_prefix_of(rest) ==> vocab[j].len()
                < vocab[p].len() || (vocab[j].len() == vocab[p].len() && p <= j),
    ensures
        encoded(rest, vocab).len() > 0,
        encoded(rest, vocab)[0] == p,
        encoded(rest, vocab).skip(1) == encoded(rest.skip(vocab[p].len() as int), vocab),
{
    lemma_longest(rest, vocab, vocab.len() as int);
    let q = best_entry(rest, vocab);
    assert(leads(vocab[p], rest)) by {
        assert(rest.take(vocab[p].len() as int) =~= vocab[p]);
    }
    assert(vocab[q].is_prefix_of(rest)) by {
        assert(leads(vocab[q], rest));
        assert(rest.subrange(0, vocab[q].len() as int) =~= vocab[q]);
    }
    assert(q == p) by {
        if q != p {
            assert(vocab[p].len() <= vocab[q].len());
            if p < q {
                assert(vocab[q].len() <= vocab[p].len());
                assert(leads(vocab[p], rest) && vocab[p].len() < vocab[q].len());
            }
        }
    }
    let tail = encoded(rest.skip(vocab[p].len() as int), vocab);
    assert((seq![p as u32] + tail).skip(1) =~= tail);
}

/// Where no entry begins, the encoding leaves a byte out.
pub proof fn law_encoding_leaves_out_unknown_bytes(rest: Seq<u8>, vocab: Seq<Seq<u8>>)
    requires
        rest.len() > 0,
        forall|j: int|
            0 <= j < vocab.len() && vocab[j].len() > 0 ==> !#[trigger] vocab[j].is_prefix_of(rest),
    ensures
        encoded(rest, vocab) == encoded(rest.skip(1), vocab),
{
    lemma_longest(rest, vocab, vocab.len() as int);
    let q = best_entry(rest, vocab);
    if q >= 0 {
        assert(leads(vocab[q], rest));
        assert(rest.subrange(0, vocab[q].len() as int) =~= vocab[q]);
        assert(vocab[q].is_prefix_of(rest));
    }
}

/// Text becomes the tokens of its UTF-8 bytes.
pub proof fn law_prompt_text_is_encoded_by_bytes(text: &str, vocab: &[VocabEntry], tokens: Vec<u32>)
    requires
        call_ensures(encode_prompt_text, (text, vocab), tokens),
    ensures
        tokens@ == encoded(
            vstd::utf8::encode_utf8(text@),
            Seq::new(vocab@.len(), |i: int| vstd::utf8::encode_utf8(vocab@[i].text@)),
        ),
{
    assert(text_bytes(vocab@) =~= Seq::new(
        vocab@.len(),
        |i: int| vstd::utf8::encode_utf8(vocab@[i].text@),
    ));
}

} // verus!
