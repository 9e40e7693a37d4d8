# oxiwhisper

The logic of a Whisper speech-to-text engine as a Verus library: what each function returns is
stated in its contract and proved.

## What is covered

| Module | Contents |
|--------|----------|
| `audio` | RIFF/WAVE parsing, sample conversion, downmix, linear resampling to 16 kHz |
| `mel` | Framing, Hann window, filterbank and level scaling of log-mel spectrograms |
| `model` | GGML model files: format, reader, lookup of tensors |
| `quantize` | Q4_0, Q5_0 and Q8_0 blocks: layout, dot products, dequantization |
| `decoder` | KV cache, attention, forward pass, prompt, greedy decoding and sampling |
| `decode_utils`, `probability` | Argmax, ranking, log-probabilities, sampling, suppression, n-gram blocking |
| `tokenizer`, `languages` | Token ids to text, timestamp segments, language tokens |
| `dtw`, `word_timestamps` | Alignment of tokens with frames, words with times |
| `gguf` | Alignment of tensor data |
| `bits`, `ranking`, `le`, `num`, `rows`, `text` | Order of bit patterns, sorting, little-endian integers, abstract arithmetic, matrices, text |

## Numbers

Floating-point arithmetic has no exact statement here. Functions are generic in the number type,
and functions of single numbers are parameters. A contract says which operations are applied, to
which operands and in which order. Constants are given by their bit patterns. Logits and weights are compared by their bit patterns, whose
order is stated in `bits`.

## Laws

Functions named `law_...` are proofs about several functions at once: files that were written are
read back (`audio::laws`, `model::laws`), loaded audio stays in range (`audio::signal`), output of
the decoder is bounded and respects its constraints (`decoder::laws`), decoding fails only on the
model's own weights (`decoder::failures`), a masked query never sees
later positions (`decoder::unique`), segments and words lie in order, and others beside the
functions they speak of.

## What is trusted

Four functions of the standard library are taken at their documentation: `str::trim` and
`String::from_utf8_lossy` (`src/text.rs`), `Arc::make_mut` and `Arc::clone`
(`src/decoder/kv_cache.rs`).

## Layout

- `src/` is the library.
- `tests/` runs it in single precision.
- `app/` is a front end in single precision: files, memory mapping, random numbers, the Fourier
  transform, half-precision conversion and serialization.
