//! What reading gives back of GGML files that were put together piece by piece.

use crate::model::format::{LoadFailure, Storage, Tables};
use crate::model::{DataView, Hparams, ModelView, TensorView};
use vstd::prelude::*;

verus! {

/// `s` stands at `pos` in `b`.
pub open spec fn stands_at(b: Seq<u8>, pos: int, s: Seq<u8>) -> bool {
    0 <= pos && pos + s.len() <= b.len() && b.subrange(pos, pos + s.len()) == s
}

/// What stands in a place stands there in parts.
proof fn lemma_parts(b: Seq<u8>, pos: int, x: Seq<u8>, y: Seq<u8>)
    requires
        stands_at(b, pos, x + y),
    ensures
        stands_at(b, pos, x),
        stands_at(b, pos + x.len(), y),
{
    let whole = b.subrange(pos, pos + (x + y).len());
    assert(b.subrange(pos, pos + x.len()) =~= x) by {
        assert forall|i: int| 0 <= i < x.len() implies b[pos + i] == x[i] by {
            assert(whole[i] == (x + y)[i]);
        }
    }
    assert(b.subrange(pos + x.len(), pos + x.len() + y.len()) =~= y) by {
        assert forall|i: int| 0 <= i < y.len() implies b[pos + x.len() + i] == y[i] by {
            assert(whole[x.len() + i] == (x + y)[x.len() + i]);
        }
    }
}

/// A count and what is behind it.
proof fn lemma_count(b: Seq<u8>, pos: int, n: int, y: Seq<u8>)
    requires
        0 <= n <= i32::MAX,
        stands_at(b, pos, crate::le::i32_bytes(n as i32) + y),
    ensures
        crate::le::available(b, pos, 4),
        crate::le::i32_at(b, pos) == n,
        crate::model::format::count_at(b, pos) == n,
        stands_at(b, pos + 4, y),
{
    lemma_parts(b, pos, crate::le::i32_bytes(n as i32), y);
    crate::le::read_back_i32(b, pos, n as i32);
}

/// The bytes of 32-bit patterns.
pub open spec fn singles_bytes(v: Seq<u32>) -> Seq<u8> {
    Seq::new(4 * v.len(), |p: int| crate::le::u32_bytes(v[p / 4])[p % 4])
}

/// The bytes of dimensions.
pub open spec fn dims_bytes(shape: Seq<usize>) -> Seq<u8> {
    Seq::new(4 * shape.len(), |p: int| crate::le::i32_bytes(shape[p / 4] as i32)[p % 4])
}

/// Patterns are read back.
proof fn lemma_singles(b: Seq<u8>, pos: int, v: Seq<u32>)
    requires
        stands_at(b, pos, singles_bytes(v)),
    ensures
        crate::model::format::singles_at(b, pos, v.len()) == v,
{
    let s = singles_bytes(v);
    assert forall|i: int| 0 <= i < v.len() implies crate::le::u32_at(b, pos + 4 * i)
        == #[trigger] v[i] by {
        assert forall|j: int| 0 <= j < 4 implies b[pos + 4 * i + j] == crate::le::u32_bytes(
            v[i],
        )[j] by {
            assert(b.subrange(pos, pos + s.len())[4 * i + j] == s[4 * i + j]);
            assert((4 * i + j) / 4 == i && (4 * i + j) % 4 == j);
        }
        assert(b.subrange(pos + 4 * i, pos + 4 * i + 4) =~= crate::le::u32_bytes(v[i]));
        crate::le::read_back_u32(b, pos + 4 * i, v[i]);
    }
    assert(crate::model::format::singles_at(b, pos, v.len()) =~= v);
}

/// Dimensions are read back.
proof fn lemma_dims(b: Seq<u8>, pos: int, shape: Seq<usize>)
    requires
        stands_at(b, pos, dims_bytes(shape)),
        forall|i: int| 0 <= i < shape.len() ==> #[trigger] shape[i] <= i32::MAX,
    ensures
        crate::model::format::dims_at(b, pos, shape.len()) == shape,
{
    let s = dims_bytes(shape);
    assert forall|i: int| 0 <= i < shape.len() implies crate::le::i32_at(b, pos + 4 * i) as usize
        == #[trigger] shape[i] by {
        let d = shape[i] as i32;
        assert forall|j: int| 0 <= j < 4 implies b[pos + 4 * i + j] == crate::le::i32_bytes(
            d,
        )[j] by {
            assert(b.subrange(pos, pos + s.len())[4 * i + j] == s[4 * i + j]);
            assert((4 * i + j) / 4 == i && (4 * i + j) % 4 == j);
        }
        assert(b.subrange(pos + 4 * i, pos + 4 * i + 4) =~= crate::le::i32_bytes(d));
        crate::le::read_back_i32(b, pos + 4 * i, d);
    }
    assert(crate::model::format::dims_at(b, pos, shape.len()) =~= shape);
}

/// A tensor to be written: bytes of the name, storage, shape, bytes of the elements.
pub struct FileTensor {
    /// Bytes of the name.
    pub name: Seq<u8>,
    /// Storage of the elements.
    pub storage: Storage,
    /// Shape.
    pub shape: Seq<usize>,
    /// Bytes of the elements.
    pub data: Seq<u8>,
}

/// The data type number of a storage.
pub open spec fn dtype_of(s: Storage) -> i32 {
    match s {
        Storage::Single => 0,
        Storage::Half => 1,
        Storage::Blocks(crate::quantize::types::QuantType::Q4_0) => 2,
        Storage::Blocks(crate::quantize::types::QuantType::Q8_0) => 3,
        Storage::Blocks(crate::quantize::types::QuantType::Q5_0) => 6,
    }
}

/// The tensor's counts fit their fields, and it has the bytes that its shape needs.
pub open spec fn can_write(t: FileTensor) -> bool {
    &&& t.name.len() <= i32::MAX
    &&& t.shape.len() <= i32::MAX
    &&& forall|i: int| 0 <= i < t.shape.len() ==> #[trigger] t.shape[i] <= i32::MAX
    &&& t.data.len() == crate::model::format::storage_bytes(
        t.storage,
        crate::quantize::types::product(t.shape),
    )
}

/// The bytes of a tensor.
pub open spec fn tensor_bytes(t: FileTensor) -> Seq<u8> {
    crate::le::i32_bytes(t.shape.len() as i32) + (crate::le::i32_bytes(t.name.len() as i32) + (
    crate::le::i32_bytes(dtype_of(t.storage)) + (dims_bytes(t.shape) + (t.name + t.data))))
}

/// The name that a tensor is found by.
pub open spec fn name_of(t: FileTensor) -> Seq<char> {
    crate::text::without_trailing_nuls(crate::text::text_of(t.name))
}

/// What a tensor holds.
pub open spec fn content_of(t: FileTensor) -> TensorView {
    TensorView {
        data: crate::model::format::data_at(
            t.data,
            0,
            t.storage,
            crate::quantize::types::product(t.shape),
        ),
        shape: t.shape,
    }
}

/// Elements are read where their bytes stand.
proof fn lemma_data(b: Seq<u8>, pos: int, s: Storage, n: nat, data: Seq<u8>)
    requires
        stands_at(b, pos, data),
        data.len() == crate::model::format::storage_bytes(s, n),
    ensures
        crate::model::format::data_at(b, pos, s, n) == crate::model::format::data_at(data, 0, s, n),
{
    let part = b.subrange(pos, pos + data.len());
    assert forall|i: int| 0 <= i < data.len() implies b[pos + i] == data[i] by {
        assert(part[i] == data[i]);
    }
    match s {
        Storage::Single => {
            assert(crate::model::format::singles_at(b, pos, n)
                =~= crate::model::format::singles_at(data, 0, n)) by {
                assert forall|i: int| 0 <= i < n implies #[trigger] crate::model::format::singles_at(
                    b,
                    pos,
                    n,
                )[i] == crate::model::format::singles_at(data, 0, n)[i] by {
                    assert(b[pos + (4 * i)] == data[4 * i]);
                    assert(b[pos + (4 * i + 1)] == data[4 * i + 1]);
                    assert(b[pos + (4 * i + 2)] == data[4 * i + 2]);
                    assert(b[pos + (4 * i + 3)] == data[4 * i + 3]);
                }
            }
        },
        Storage::Half => {
            assert(crate::model::format::halves_at(b, pos, n)
                =~= crate::model::format::halves_at(data, 0, n)) by {
                assert forall|i: int| 0 <= i < n implies #[trigger] crate::model::format::halves_at(
                    b,
                    pos,
                    n,
                )[i] == crate::model::format::halves_at(data, 0, n)[i] by {
                    assert(b[pos + (2 * i)] == data[2 * i]);
                    assert(b[pos + (2 * i + 1)] == data[2 * i + 1]);
                }
            }
        },
        Storage::Blocks(q) => {
            assert(data.subrange(0, data.len() as int) =~= data);
        },
    }
}

/// A tensor that was written is read back: its name, its shape, its elements, and where it ends.
pub proof fn law_tensor_reads_back(b: Seq<u8>, pos: int, t: FileTensor)
    requires
        can_write(t),
        stands_at(b, pos, tensor_bytes(t)),
    ensures
        crate::model::format::tensor_at(b, pos) == Ok::<
            crate::model::format::NamedTensor,
            LoadFailure,
        >(
            crate::model::format::NamedTensor {
                name: name_of(t),
                tensor: content_of(t),
                end: pos + tensor_bytes(t).len(),
            },
        ),
        crate::le::available(b, pos, 4),
{
    let n = t.shape.len() as int;
    let m = t.name.len() as int;
    let names = t.name + t.data;
    let dims = dims_bytes(t.shape) + names;
    let typed = crate::le::i32_bytes(dtype_of(t.storage)) + dims;
    let named = crate::le::i32_bytes(m as i32) + typed;
    lemma_count(b, pos, n, named);
    lemma_count(b, pos + 4, m, typed);
    lemma_count(b, pos + 8, dtype_of(t.storage) as int, dims);
    lemma_parts(b, pos + 12, dims_bytes(t.shape), names);
    lemma_dims(b, pos + 12, t.shape);
    lemma_parts(b, pos + 12 + 4 * n, t.name, t.data);
    lemma_data(
        b,
        pos + 12 + 4 * n + m,
        t.storage,
        crate::quantize::types::product(t.shape),
        t.data,
    );
    assert(crate::model::format::storage_of(dtype_of(t.storage)) == Some(t.storage));
}

/// The bytes of tensors, one behind the other.
pub open spec fn tensors_bytes(list: Seq<FileTensor>) -> Seq<u8>
    decreases list.len(),
{
    if list.len() == 0 {
        Seq::empty()
    } else {
        tensor_bytes(list[0]) + tensors_bytes(list.skip(1))
    }
}

/// The tables with all tensors of a list added in order.
pub open spec fn with_tensors(t: Tables, list: Seq<FileTensor>) -> Tables
    decreases list.len(),
{
    if list.len() == 0 {
        t
    } else {
        with_tensors(
            crate::model::format::with_tensor(t, name_of(list[0]), content_of(list[0])),
            list.skip(1),
        )
    }
}

/// Tensors at the end of a file, with at most three bytes behind them, are all read.
proof fn lemma_tensors(b: Seq<u8>, pos: int, list: Seq<FileTensor>, t: Tables)
    requires
        forall|i: int| 0 <= i < list.len() ==> can_write(#[trigger] list[i]),
        stands_at(b, pos, tensors_bytes(list)),
        b.len() - (pos + tensors_bytes(list).len()) < 4,
    ensures
        crate::model::format::tensors_from(b, pos, t) == Ok::<Tables, LoadFailure>(
            with_tensors(t, list),
        ),
    decreases list.len(),
{
    if list.len() > 0 {
        let first = list[0];
        let later = list.skip(1);
        lemma_parts(b, pos, tensor_bytes(first), tensors_bytes(later));
        law_tensor_reads_back(b, pos, first);
        assert forall|i: int| 0 <= i < later.len() implies can_write(#[trigger] later[i]) by {
            assert(later[i] == list[i + 1]);
        }
        lemma_tensors(
            b,
            pos + tensor_bytes(first).len(),
            later,
            crate::model::format::with_tensor(t, name_of(first), content_of(first)),
        );
    }
}

/// The bytes of vocabulary entries, each behind its length.
pub open spec fn vocab_bytes(list: Seq<Seq<u8>>) -> Seq<u8>
    decreases list.len(),
{
    if list.len() == 0 {
        Seq::empty()
    } else {
        crate::le::i32_bytes(list[0].len() as i32) + (list[0] + vocab_bytes(list.skip(1)))
    }
}

/// Vocabulary entries are all read.
proof fn lemma_vocab(b: Seq<u8>, pos: int, list: Seq<Seq<u8>>, read: Seq<Seq<char>>)
    requires
        forall|i: int| 0 <= i < list.len() ==> (#[trigger] list[i]).len() <= i32::MAX,
        stands_at(b, pos, vocab_bytes(list)),
    ensures
        crate::model::format::vocab_from(b, pos, list.len(), read) == Ok::<
            (Seq<Seq<char>>, int),
            LoadFailure,
        >(
            (
                read + list.map_values(|e: Seq<u8>| crate::text::text_of(e)),
                pos + vocab_bytes(list).len(),
            ),
        ),
    decreases list.len(),
{
    let texts = list.map_values(|e: Seq<u8>| crate::text::text_of(e));
    if list.len() == 0 {
        assert(read + texts =~= read);
    } else {
        let first = list[0];
        let later = list.skip(1);
        let others = vocab_bytes(later);
        lemma_count(b, pos, first.len() as int, first + others);
        lemma_parts(b, pos + 4, first, others);
        assert forall|i: int| 0 <= i < later.len() implies (#[trigger] later[i]).len()
            <= i32::MAX by {
            assert(later[i] == list[i + 1]);
        }
        let text = crate::text::text_of(first);
        lemma_vocab(b, pos + 4 + first.len(), later, read.push(text));
        assert(read.push(text) + later.map_values(|e: Seq<u8>| crate::text::text_of(e)) =~= read
            + texts);
    }
}

/// A GGML file to be written.
pub struct GgmlFile {
    /// Hyperparameters.
    pub hparams: Hparams,
    /// Number of mel filters.
    pub mel_rows: nat,
    /// Length of a mel filter.
    pub mel_cols: nat,
    /// Bit patterns of the mel filters.
    pub mel: Seq<u32>,
    /// Bytes of the vocabulary's entries.
    pub vocab: Seq<Seq<u8>>,
    /// Tensors.
    pub tensors: Seq<FileTensor>,
}

/// All counts of hyperparameters fit their fields.
pub open spec fn hparams_fit(h: Hparams) -> bool {
    &&& h.n_vocab <= i32::MAX
    &&& h.n_audio_ctx <= i32::MAX
    &&& h.n_audio_state <= i32::MAX
    &&& h.n_audio_head <= i32::MAX
    &&& h.n_audio_layer <= i32::MAX
    &&& h.n_text_ctx <= i32::MAX
    &&& h.n_text_state <= i32::MAX
    &&& h.n_text_head <= i32::MAX
    &&& h.n_text_layer <= i32::MAX
    &&& h.n_mels <= i32::MAX
}

/// The file's counts fit their fields.
pub open spec fn file_fits(m: GgmlFile) -> bool {
    &&& hparams_fit(m.hparams)
    &&& m.mel_rows <= i32::MAX
    &&& m.mel_cols <= i32::MAX
    &&& m.mel.len() == m.mel_rows * m.mel_cols
    &&& m.vocab.len() <= i32::MAX
    &&& forall|i: int| 0 <= i < m.vocab.len() ==> (#[trigger] m.vocab[i]).len() <= i32::MAX
    &&& forall|i: int| 0 <= i < m.tensors.len() ==> can_write(#[trigger] m.tensors[i])
}

/// The bytes of a GGML file behind its magic, from the mel filters on.
pub open spec fn body_bytes(m: GgmlFile) -> Seq<u8> {
    crate::le::i32_bytes(m.mel_rows as i32) + (crate::le::i32_bytes(m.mel_cols as i32) + (
    singles_bytes(m.mel) + (crate::le::i32_bytes(m.vocab.len() as i32) + (vocab_bytes(m.vocab)
        + tensors_bytes(m.tensors)))))
}

/// The bytes of a GGML file.
pub open spec fn file_bytes(m: GgmlFile) -> Seq<u8> {
    let h = m.hparams;
    crate::model::format::ggml_magic() + (crate::le::i32_bytes(h.n_vocab as i32) + (
    crate::le::i32_bytes(h.n_audio_ctx as i32) + (crate::le::i32_bytes(h.n_audio_state as i32) + (
    crate::le::i32_bytes(h.n_audio_head as i32) + (crate::le::i32_bytes(h.n_audio_layer as i32) + (
    crate::le::i32_bytes(h.n_text_ctx as i32) + (crate::le::i32_bytes(h.n_text_state as i32) + (
    crate::le::i32_bytes(h.n_text_head as i32) + (crate::le::i32_bytes(h.n_text_layer as i32) + (
    crate::le::i32_bytes(h.n_mels as i32) + (crate::le::i32_bytes(h.ftype) + body_bytes(
        m,
    ))))))))))))
}

/// The model that a file holds.
pub open spec fn model_of(m: GgmlFile) -> ModelView {
    let t = with_tensors(Tables { tensors: Map::empty(), quantized: Map::empty() }, m.tensors);
    ModelView {
        hparams: m.hparams,
        mel_filters: m.mel,
        vocab: m.vocab.map_values(|e: Seq<u8>| crate::text::text_of(e)),
        tensors: t.tensors,
        quantized_tensors: t.quantized,
    }
}

/// The hyperparameters of a file are read back.
proof fn lemma_hparams(b: Seq<u8>, m: GgmlFile)
    requires
        file_fits(m),
        stands_at(b, 0, file_bytes(m)),
    ensures
        crate::le::available(b, 4, 44),
        crate::model::format::hparams_at(b, 4) == m.hparams,
        b.take(4) == crate::model::format::ggml_magic(),
        stands_at(b, 48, body_bytes(m)),
        file_bytes(m).len() == 48 + body_bytes(m).len(),
{
    let h = m.hparams;
    let s11 = crate::le::i32_bytes(h.ftype) + body_bytes(m);
    let s10 = crate::le::i32_bytes(h.n_mels as i32) + s11;
    let s9 = crate::le::i32_bytes(h.n_text_layer as i32) + s10;
    let s8 = crate::le::i32_bytes(h.n_text_head as i32) + s9;
    let s7 = crate::le::i32_bytes(h.n_text_state as i32) + s8;
    let s6 = crate::le::i32_bytes(h.n_text_ctx as i32) + s7;
    let s5 = crate::le::i32_bytes(h.n_audio_layer as i32) + s6;
    let s4 = crate::le::i32_bytes(h.n_audio_head as i32) + s5;
    let s3 = crate::le::i32_bytes(h.n_audio_state as i32) + s4;
    let s2 = crate::le::i32_bytes(h.n_audio_ctx as i32) + s3;
    let s1 = crate::le::i32_bytes(h.n_vocab as i32) + s2;
    lemma_parts(b, 0, crate::model::format::ggml_magic(), s1);
    assert(b.take(4) =~= b.subrange(0, 4));
    lemma_count(b, 4, h.n_vocab as int, s2);
    lemma_count(b, 8, h.n_audio_ctx as int, s3);
    lemma_count(b, 12, h.n_audio_state as int, s4);
    lemma_count(b, 16, h.n_audio_head as int, s5);
    lemma_count(b, 20, h.n_audio_layer as int, s6);
    lemma_count(b, 24, h.n_text_ctx as int, s7);
    lemma_count(b, 28, h.n_text_state as int, s8);
    lemma_count(b, 32, h.n_text_head as int, s9);
    lemma_count(b, 36, h.n_text_layer as int, s10);
    lemma_count(b, 40, h.n_mels as int, s11);
    lemma_parts(b, 44, crate::le::i32_bytes(h.ftype), body_bytes(m));
    crate::le::read_back_i32(b, 44, h.ftype);
}

/// What stands behind the hyperparameters is read back.
proof fn lemma_body(b: Seq<u8>, m: GgmlFile)
    requires
        file_fits(m),
        crate::model::format::hparams_at(b, 4) == m.hparams,
        stands_at(b, 48, body_bytes(m)),
        b.len() - (48 + body_bytes(m).len()) < 4,
    ensures
        crate::model::format::ggml_model(b) == Ok::<ModelView, LoadFailure>(model_of(m)),
{
    let tensors = tensors_bytes(m.tensors);
    let entries = vocab_bytes(m.vocab) + tensors;
    let counted = crate::le::i32_bytes(m.vocab.len() as i32) + entries;
    let filters = singles_bytes(m.mel) + counted;
    lemma_count(b, 48, m.mel_rows as int, crate::le::i32_bytes(m.mel_cols as i32) + filters);
    lemma_count(b, 52, m.mel_cols as int, filters);
    lemma_parts(b, 56, singles_bytes(m.mel), counted);
    lemma_singles(b, 56, m.mel);
    let vocab_pos: int = 56 + 4 * m.mel.len() as int;
    lemma_count(b, vocab_pos, m.vocab.len() as int, entries);
    lemma_parts(b, vocab_pos + 4, vocab_bytes(m.vocab), tensors);
    lemma_vocab(b, vocab_pos + 4, m.vocab, Seq::empty());
    let none = Tables { tensors: Map::empty(), quantized: Map::empty() };
    lemma_tensors(b, vocab_pos + 4 + vocab_bytes(m.vocab).len(), m.tensors, none);
    let texts = m.vocab.map_values(|e: Seq<u8>| crate::text::text_of(e));
    assert(Seq::<Seq<char>>::empty() + texts =~= texts);
}

/// A GGML file that was written is read back: hyperparameters, mel filters, vocabulary and
/// tensors. Up to three bytes behind the last tensor do not matter.
pub proof fn law_model_reads_back(m: GgmlFile, tail: Seq<u8>)
    requires
        file_fits(m),
        tail.len() < 4,
    ensures
        (file_bytes(m) + tail).take(4) == crate::model::format::ggml_magic(),
        crate::model::format::ggml_model(file_bytes(m) + tail) == Ok::<ModelView, LoadFailure>(
            model_of(m),
        ),
{
    let file = file_bytes(m);
    let b = file + tail;
    assert(b.subrange(0, file.len() as int) =~= file);
    lemma_hparams(b, m);
    lemma_body(b, m);
}

/// The elements of a tensor are the file's own: single precision in four bytes each and half precision
/// in two, the lowest byte first; blocks byte for byte.
pub proof fn law_elements_are_read_from_bytes(t: FileTensor)
    requires
        can_write(t),
    ensures
        content_of(t).shape == t.shape,
        t.storage is Single ==> t.data.len() == 4 * crate::quantize::types::product(t.shape),
        t.storage is Half ==> t.data.len() == 2 * crate::quantize::types::product(t.shape),
        t.storage matches Storage::Blocks(q) ==> t.data.len() == crate::quantize::types::product(
            t.shape,
        ) / 32 * (match q {
            crate::quantize::types::QuantType::Q4_0 => 18nat,
            crate::quantize::types::QuantType::Q5_0 => 22nat,
            crate::quantize::types::QuantType::Q8_0 => 34nat,
        }),
        match content_of(t).data {
            DataView::Single(s) => t.storage is Single && 4 * s.len() == t.data.len() && forall|i: int|
                0 <= i < s.len() ==> #[trigger] s[i] == t.data[4 * i] + 0x100 * t.data[4 * i + 1]
                    + 0x1_0000 * t.data[4 * i + 2] + 0x100_0000 * t.data[4 * i + 3],
            DataView::Half(s) => t.storage is Half && 2 * s.len() == t.data.len() && forall|i: int|
                0 <= i < s.len() ==> #[trigger] s[i] == t.data[2 * i] + 0x100 * t.data[2 * i + 1],
            DataView::Blocks(q, raw) => t.storage == Storage::Blocks(q) && raw == t.data,
        },
{
    if let Storage::Blocks(q) = t.storage {
        let n = crate::quantize::types::product(t.shape);
        let bytes = crate::model::format::storage_bytes(t.storage, n) as int;
        assert(t.data.subrange(0, bytes) =~= t.data);
    }
}

/// A tensor stays in its blocks exactly where it is quantized, has two dimensions and more than 1024
/// elements: then the table of quantized tensors holds it, else the other one does. Nothing else
/// changes.
pub proof fn law_large_quantized_matrices_stay_in_blocks(
    t: Tables,
    name: Seq<char>,
    tensor: TensorView,
)
    ensures
        ({
            let after = crate::model::format::with_tensor(t, name, tensor);
            let large = tensor.shape.len() == 2 && tensor.shape[0] * tensor.shape[1] > 1024;
            match tensor.data {
                DataView::Blocks(q, raw) if large => {
                    &&& after.quantized.contains_key(name)
                    &&& after.quantized[name].qtype == q
                    &&& after.quantized[name].raw == raw
                    &&& after.quantized[name].shape == tensor.shape
                    &&& after.quantized.remove(name) == t.quantized.remove(name)
                    &&& after.tensors == t.tensors
                },
                _ => {
                    &&& after.tensors.contains_key(name)
                    &&& after.tensors[name] == tensor
                    &&& after.tensors.remove(name) == t.tensors.remove(name)
                    &&& after.quantized == t.quantized
                },
            }
        }),
{
    if tensor.shape.len() == 2 {
        let a = tensor.shape[0];
        let b = tensor.shape[1];
        crate::quantize::types::law_product_splits(seq![a], seq![b]);
        assert(tensor.shape =~= seq![a] + seq![b]);
        assert(crate::quantize::types::product(seq![a]) == a);
        assert(crate::quantize::types::product(seq![b]) == b);
    }
    let after = crate::model::format::with_tensor(t, name, tensor);
    assert(after.quantized.remove(name) =~= t.quantized.remove(name));
    assert(after.tensors.remove(name) =~= t.tensors.remove(name));
}

} // verus!
