//! Reading models out of bytes.

use crate::model::format::{Storage, Tables};
use crate::model::{Hparams, ModelData, ModelFile, Tensor, TensorData, TensorView, VocabEntry};
use crate::quantize::types::{
    QuantType, QuantizedTensor, Q4_0_BLOCK_BYTES, Q5_0_BLOCK_BYTES, Q8_0_BLOCK_BYTES,
};
use vstd::hash_map::StringHashMap;
use vstd::prelude::*;
use vstd::slice::slice_to_vec;
use vstd::string::*;

verus! {

/// Reads the signed integer at `pos`.
fn read_i32(b: &[u8], pos: usize) -> (r: Result<i32, String>)
    ensures
        match r {
            Ok(v) => crate::le::available(b@, pos as int, 4) && v == crate::le::i32_at(
                b@,
                pos as int,
            ),
            Err(e) => !crate::le::available(b@, pos as int, 4) && e@
                == crate::model::format::failure_text(crate::model::format::LoadFailure::Int),
        },
{
    if crate::le::has_bytes(b, pos, 4) {
        Ok(crate::le::get_i32(b, pos))
    } else {
        Err("read_i32: failed to fill whole buffer".to_string())
    }
}

/// Whether `n` items of `size` bytes are present at `pos`.
fn has_items(b: &[u8], pos: usize, n: u128, size: usize) -> (r: bool)
    requires
        size > 0,
    ensures
        r == crate::le::available(b@, pos as int, size * n),
        r ==> n <= b@.len() <= usize::MAX,
{
    let len: usize = b.len();
    proof {
        assert(size * n >= n) by (nonlinear_arith)
            requires
                size > 0,
        ;
    }
    if pos > len {
        return false;
    }
    let left: usize = len - pos;
    proof {
        assert(n <= left / size <==> size * n <= left) by (nonlinear_arith)
            requires
                size > 0,
        ;
    }
    n <= (left / size) as u128
}

/// Reads `n` 32-bit patterns at `pos`.
fn get_singles(b: &[u8], pos: usize, n: usize) -> (v: Vec<u32>)
    requires
        crate::le::available(b@, pos as int, 4 * n),
    ensures
        v@ == crate::model::format::singles_at(b@, pos as int, n as nat),
{
    let len: usize = b.len();
    let mut v: Vec<u32> = Vec::with_capacity(n);
    let mut i: usize = 0;
    while i < n
        invariant
            i <= n,
            len == b@.len(),
            crate::le::available(b@, pos as int, 4 * n),
            v@.len() == i,
            forall|j: int| 0 <= j < i ==> #[trigger] v@[j] == crate::le::u32_at(b@, pos + 4 * j),
        decreases n - i,
    {
        v.push(crate::le::get_u32(b, pos + 4 * i));
        i = i + 1;
    }
    assert(v@ =~= crate::model::format::singles_at(b@, pos as int, n as nat));
    v
}

/// Reads `n` 16-bit patterns at `pos`.
fn get_halves(b: &[u8], pos: usize, n: usize) -> (v: Vec<u16>)
    requires
        crate::le::available(b@, pos as int, 2 * n),
    ensures
        v@ == crate::model::format::halves_at(b@, pos as int, n as nat),
{
    let len: usize = b.len();
    let mut v: Vec<u16> = Vec::with_capacity(n);
    let mut i: usize = 0;
    while i < n
        invariant
            i <= n,
            len == b@.len(),
            crate::le::available(b@, pos as int, 2 * n),
            v@.len() == i,
            forall|j: int| 0 <= j < i ==> #[trigger] v@[j] == crate::le::u16_at(b@, pos + 2 * j),
        decreases n - i,
    {
        v.push(crate::le::get_u16(b, pos + 2 * i));
        i = i + 1;
    }
    assert(v@ =~= crate::model::format::halves_at(b@, pos as int, n as nat));
    v
}

/// Reads `n` dimensions at `pos`.
fn get_dims(b: &[u8], pos: usize, n: usize) -> (v: Vec<usize>)
    requires
        crate::le::available(b@, pos as int, 4 * n),
    ensures
        v@ == crate::model::format::dims_at(b@, pos as int, n as nat),
{
    let len: usize = b.len();
    let mut v: Vec<usize> = Vec::with_capacity(n);
    let mut i: usize = 0;
    while i < n
        invariant
            i <= n,
            len == b@.len(),
            crate::le::available(b@, pos as int, 4 * n),
            v@.len() == i,
            forall|j: int|
                0 <= j < i ==> #[trigger] v@[j] == crate::le::i32_at(b@, pos + 4 * j) as usize,
        decreases n - i,
    {
        v.push(crate::le::get_i32(b, pos + 4 * i) as usize);
        i = i + 1;
    }
    assert(v@ =~= crate::model::format::dims_at(b@, pos as int, n as nat));
    v
}

/// Reads the hyperparameters behind the magic.
fn get_hparams(b: &[u8]) -> (h: Hparams)
    requires
        crate::le::available(b@, 4, 44),
    ensures
        h == crate::model::format::hparams_at(b@, 4),
{
    Hparams {
        n_vocab: crate::le::get_i32(b, 4) as usize,
        n_audio_ctx: crate::le::get_i32(b, 8) as usize,
        n_audio_state: crate::le::get_i32(b, 12) as usize,
        n_audio_head: crate::le::get_i32(b, 16) as usize,
        n_audio_layer: crate::le::get_i32(b, 20) as usize,
        n_text_ctx: crate::le::get_i32(b, 24) as usize,
        n_text_state: crate::le::get_i32(b, 28) as usize,
        n_text_head: crate::le::get_i32(b, 32) as usize,
        n_text_layer: crate::le::get_i32(b, 36) as usize,
        n_mels: crate::le::get_i32(b, 40) as usize,
        ftype: crate::le::get_i32(b, 44),
    }
}

/// Reads `n` vocabulary entries at `start`; gives them and where they end.
fn read_vocab(b: &[u8], start: usize, n: usize) -> (r: Result<(Vec<VocabEntry>, usize), String>)
    requires
        start <= b@.len(),
    ensures
        match crate::model::format::vocab_from(b@, start as int, n as nat, Seq::empty()) {
            Ok((texts, end)) => r is Ok && crate::model::texts(r->Ok_0.0@) == texts && r->Ok_0.1
                == end && end <= b@.len(),
            Err(e) => r is Err && r->Err_0@ == crate::model::format::failure_text(e),
        },
{
    let len: usize = b.len();
    let mut vocab: Vec<VocabEntry> = Vec::new();
    let mut pos: usize = start;
    let mut i: usize = 0;
    assert(crate::model::texts(vocab@) =~= Seq::empty());
    while i < n
        invariant
            i <= n,
            len == b@.len(),
            pos <= len,
            crate::model::format::vocab_from(
                b@,
                pos as int,
                (n - i) as nat,
                crate::model::texts(vocab@),
            ) == crate::model::format::vocab_from(b@, start as int, n as nat, Seq::empty()),
        decreases n - i,
    {
        let entry_len: usize = match read_i32(b, pos) {
            Ok(v) => v as usize,
            Err(e) => {
                return Err(e);
            },
        };
        if !crate::le::has_bytes(b, pos + 4, entry_len) {
            return Err("read vocab: failed to fill whole buffer".to_string());
        }
        let end: usize = pos + 4 + entry_len;
        let text: String = crate::text::get_text(&b[pos + 4..end]);
        let ghost before = crate::model::texts(vocab@);
        vocab.push(VocabEntry { text });
        assert(crate::model::texts(vocab@) =~= before.push(text@));
        pos = end;
        i = i + 1;
    }
    Ok((vocab, pos))
}

/// Every dimension counts at least one.
proof fn lemma_product_grows(s: Seq<usize>, k: int)
    requires
        0 <= k <= s.len(),
        forall|i: int| 0 <= i < s.len() ==> s[i] > 0,
    ensures
        crate::quantize::types::product(s.take(k)) <= crate::quantize::types::product(s),
    decreases s.len() - k,
{
    if k < s.len() {
        lemma_product_grows(s, k + 1);
        assert(s.take(k + 1).drop_last() =~= s.take(k));
        let p = crate::quantize::types::product(s.take(k));
        assert(p * (s[k] as nat) >= p) by (nonlinear_arith)
            requires
                s[k] > 0,
        ;
    } else {
        assert(s.take(k) =~= s);
    }
}

/// A zero among the dimensions makes the product zero.
proof fn lemma_product_zero(s: Seq<usize>, k: int)
    requires
        0 <= k < s.len(),
        s[k] == 0,
    ensures
        crate::quantize::types::product(s) == 0,
    decreases s.len(),
{
    if k == s.len() - 1 {
        let p = crate::quantize::types::product(s.drop_last());
        assert(p * 0 == 0) by (nonlinear_arith);
    } else {
        lemma_product_zero(s.drop_last(), k);
        assert(0 * (s.last() as nat) == 0) by (nonlinear_arith);
    }
}

/// The number of elements of a shape, or `None` where 128 bits do not hold it.
fn element_count(shape: &Vec<usize>) -> (n: Option<u128>)
    ensures
        match n {
            Some(n) => n == crate::quantize::types::product(shape@),
            None => crate::quantize::types::product(shape@) > u128::MAX,
        },
{
    let mut i: usize = 0;
    while i < shape.len()
        invariant
            i <= shape@.len(),
            forall|j: int| 0 <= j < i ==> shape@[j] > 0,
        decreases shape@.len() - i,
    {
        if shape[i] == 0 {
            proof {
                lemma_product_zero(shape@, i as int);
            }
            return Some(0);
        }
        i = i + 1;
    }
    let mut n: u128 = 1;
    let mut k: usize = 0;
    while k < shape.len()
        invariant
            k <= shape@.len(),
            forall|j: int| 0 <= j < shape@.len() ==> shape@[j] > 0,
            n == crate::quantize::types::product(shape@.take(k as int)),
        decreases shape@.len() - k,
    {
        proof {
            assert(shape@.take(k + 1).drop_last() =~= shape@.take(k as int));
            lemma_product_grows(shape@, k + 1);
        }
        match n.checked_mul(shape[k] as u128) {
            Some(m) => {
                n = m;
            },
            None => {
                return None;
            },
        }
        k = k + 1;
    }
    assert(shape@.take(k as int) =~= shape@);
    Some(n)
}

/// The storage that a data type number stands for.
fn get_storage(dtype: i32) -> (s: Option<Storage>)
    ensures
        s == crate::model::format::storage_of(dtype),
{
    match dtype {
        0 => Some(Storage::Single),
        1 => Some(Storage::Half),
        2 => Some(Storage::Blocks(QuantType::Q4_0)),
        3 => Some(Storage::Blocks(QuantType::Q8_0)),
        6 => Some(Storage::Blocks(QuantType::Q5_0)),
        _ => None,
    }
}

/// The message of a file that ends inside a tensor's elements.
fn storage_error(s: &Storage) -> (e: String)
    ensures
        e@ == crate::model::format::failure_text(crate::model::format::storage_failure(*s)),
{
    match s {
        Storage::Single => "read_f32_slice: failed to fill whole buffer".to_string(),
        Storage::Half => "read f16 data: failed to fill whole buffer".to_string(),
        Storage::Blocks(QuantType::Q4_0) => {
            "read Q4_0 data: failed to fill whole buffer".to_string()
        },
        Storage::Blocks(QuantType::Q5_0) => {
            "read Q5_0 data: failed to fill whole buffer".to_string()
        },
        Storage::Blocks(QuantType::Q8_0) => {
            "read Q8_0 data: failed to fill whole buffer".to_string()
        },
    }
}

/// More elements than 128 bits count take more bytes than a file can have.
proof fn lemma_too_many(b: Seq<u8>, pos: int, s: Storage, n: nat)
    requires
        n > u128::MAX,
        b.len() <= usize::MAX,
        0 <= pos,
    ensures
        !crate::le::available(b, pos, crate::model::format::storage_bytes(s, n) as int),
{
    if let Storage::Blocks(q) = s {
        let k = q.bytes_per_block();
        assert(n / 32 * k >= n / 32) by (nonlinear_arith)
            requires
                k >= 1,
        ;
    }
}

/// Reads the elements of a tensor at `pos`; gives them and where they end.
fn read_data(b: &[u8], pos: usize, s: &Storage, shape: &Vec<usize>) -> (r: Result<
    (TensorData, usize),
    String,
>)
    requires
        pos <= b@.len(),
    ensures
        ({
            let count = crate::quantize::types::product(shape@);
            let bytes = crate::model::format::storage_bytes(*s, count);
            if crate::le::available(b@, pos as int, bytes as int) {
                &&& r is Ok
                &&& r->Ok_0.0@ == crate::model::format::data_at(b@, pos as int, *s, count)
                &&& r->Ok_0.1 == pos + bytes
            } else {
                &&& r is Err
                &&& r->Err_0@ == crate::model::format::failure_text(
                    crate::model::format::storage_failure(*s),
                )
            }
        }),
{
    let len: usize = b.len();
    let n: u128 = match element_count(shape) {
        Some(n) => n,
        None => {
            proof {
                lemma_too_many(b@, pos as int, *s, crate::quantize::types::product(shape@));
            }
            return Err(storage_error(s));
        },
    };
    match s {
        Storage::Single => {
            if !has_items(b, pos, n, 4) {
                return Err(storage_error(s));
            }
            let n: usize = n as usize;
            Ok((TensorData::Single(get_singles(b, pos, n)), pos + 4 * n))
        },
        Storage::Half => {
            if !has_items(b, pos, n, 2) {
                return Err(storage_error(s));
            }
            let n: usize = n as usize;
            Ok((TensorData::Half(get_halves(b, pos, n)), pos + 2 * n))
        },
        Storage::Blocks(q) => {
            let block_bytes: usize = match q {
                QuantType::Q4_0 => Q4_0_BLOCK_BYTES,
                QuantType::Q5_0 => Q5_0_BLOCK_BYTES,
                QuantType::Q8_0 => Q8_0_BLOCK_BYTES,
            };
            let n_blocks: u128 = n / 32;
            proof {
                let k = block_bytes as int;
                assert(n_blocks * k == k * n_blocks) by (nonlinear_arith);
            }
            if !has_items(b, pos, n_blocks, block_bytes) {
                return Err(storage_error(s));
            }
            let end: usize = pos + (n_blocks as usize) * block_bytes;
            Ok((TensorData::Blocks(*q, slice_to_vec(&b[pos..end])), end))
        },
    }
}

/// A tensor with its name and where it ends.
struct ReadTensor {
    name: String,
    data: TensorData,
    shape: Vec<usize>,
    end: usize,
}

/// Reads the tensor at `pos`.
fn read_tensor(b: &[u8], pos: usize) -> (r: Result<ReadTensor, String>)
    requires
        crate::le::available(b@, pos as int, 4),
    ensures
        match crate::model::format::tensor_at(b@, pos as int) {
            Ok(n) => {
                &&& r is Ok
                &&& r->Ok_0.name@ == n.name
                &&& r->Ok_0.data@ == n.tensor.data
                &&& r->Ok_0.shape@ == n.tensor.shape
                &&& r->Ok_0.end == n.end
                &&& pos < n.end <= b@.len()
            },
            Err(e) => r is Err && r->Err_0@ == crate::model::format::failure_text(e),
        },
{
    let len: usize = b.len();
    let n_dims: usize = crate::le::get_i32(b, pos) as usize;
    let name_len: usize = match read_i32(b, pos + 4) {
        Ok(v) => v as usize,
        Err(e) => {
            return Err(e);
        },
    };
    let dtype: i32 = match read_i32(b, pos + 8) {
        Ok(v) => v,
        Err(e) => {
            return Err(e);
        },
    };
    if !has_items(b, pos + 12, n_dims as u128, 4) {
        return Err("read_i32: failed to fill whole buffer".to_string());
    }
    let shape: Vec<usize> = get_dims(b, pos + 12, n_dims);
    let name_pos: usize = pos + 12 + 4 * n_dims;
    if !crate::le::has_bytes(b, name_pos, name_len) {
        return Err("read tensor name: failed to fill whole buffer".to_string());
    }
    let data_pos: usize = name_pos + name_len;
    let raw_name: String = crate::text::get_text(&b[name_pos..data_pos]);
    let name: String = crate::text::trim_trailing_nuls(raw_name.as_str());
    let storage: Storage = match get_storage(dtype) {
        Some(s) => s,
        None => {
            let mut e: String = "Unsupported tensor dtype: ".to_string();
            crate::text::append_decimal(&mut e, dtype as i64);
            e.append(" for ");
            e.append(name.as_str());
            return Err(e);
        },
    };
    match read_data(b, data_pos, &storage, &shape) {
        Ok((data, end)) => Ok(ReadTensor { name, data, shape, end }),
        Err(e) => Err(e),
    }
}

/// Whether a tensor of this shape stays in its blocks.
fn is_large(shape: &Vec<usize>) -> (r: bool)
    ensures
        r == crate::model::format::is_large_matrix(shape@),
{
    shape.len() == 2 && match element_count(shape) {
        Some(n) => n > 1024,
        None => true,
    }
}

/// The tables of tensors while they are read.
struct Weights {
    tensors: StringHashMap<Tensor>,
    quantized: StringHashMap<QuantizedTensor>,
}

impl View for Weights {
    type V = Tables;

    closed spec fn view(&self) -> Tables {
        Tables {
            tensors: crate::model::tensor_views(self.tensors@),
            quantized: crate::model::quantized_views(self.quantized@),
        }
    }
}

impl Weights {
    /// Adds a tensor.
    fn put(&mut self, name: String, data: TensorData, shape: Vec<usize>)
        ensures
            final(self)@ == crate::model::format::with_tensor(
                old(self)@,
                name@,
                (TensorView { data: data@, shape: shape@ }),
            ),
    {
        let ghost before = self@;
        match data {
            TensorData::Blocks(qtype, raw) => {
                if is_large(&shape) {
                    self.quantized.insert(name, QuantizedTensor { raw, shape, qtype });
                } else {
                    self.tensors.insert(name, Tensor { data: TensorData::Blocks(qtype, raw), shape });
                }
            },
            _ => {
                self.tensors.insert(name, Tensor { data, shape });
            },
        }
        assert(self@ =~= crate::model::format::with_tensor(
            before,
            name@,
            TensorView { data: data@, shape: shape@ },
        ));
    }
}

/// Reads all tensors from `start` on.
fn read_tensors(b: &[u8], start: usize) -> (r: Result<Weights, String>)
    requires
        start <= b@.len(),
    ensures
        match crate::model::format::tensors_from(
            b@,
            start as int,
            Tables { tensors: Map::empty(), quantized: Map::empty() },
        ) {
            Ok(t) => r is Ok && r->Ok_0@ == t,
            Err(e) => r is Err && r->Err_0@ == crate::model::format::failure_text(e),
        },
{
    let ghost none = Tables { tensors: Map::empty(), quantized: Map::empty() };
    let mut weights = Weights { tensors: StringHashMap::new(), quantized: StringHashMap::new() };
    assert(weights@ =~= none);
    let mut pos: usize = start;
    while crate::le::has_bytes(b, pos, 4)
        invariant
            pos <= b@.len(),
            none == (Tables { tensors: Map::empty(), quantized: Map::empty() }),
            crate::model::format::tensors_from(b@, pos as int, weights@)
                == crate::model::format::tensors_from(b@, start as int, none),
        decreases b@.len() - pos,
    {
        match read_tensor(b, pos) {
            Ok(t) => {
                pos = t.end;
                weights.put(t.name, t.data, t.shape);
            },
            Err(e) => {
                return Err(e);
            },
        }
    }
    Ok(weights)
}

/// Reads the body of a GGML model; the magic takes the first four bytes.
pub fn load_ggml_from_reader(b: &[u8]) -> (r: Result<ModelData, String>)
    ensures
        match crate::model::format::ggml_model(b@) {
            Ok(m) => r is Ok && r->Ok_0@ == m,
            Err(e) => r is Err && r->Err_0@ == crate::model::format::failure_text(e),
        },
{
    if !crate::le::has_bytes(b, 4, 52) {
        return Err("read_i32: failed to fill whole buffer".to_string());
    }
    let len: usize = b.len();
    let hparams: Hparams = get_hparams(b);
    let n_mel_filters: usize = crate::le::get_i32(b, 48) as usize;
    let n_mel_len: usize = crate::le::get_i32(b, 52) as usize;
    proof {
        assert(n_mel_filters * n_mel_len <= usize::MAX * usize::MAX) by (nonlinear_arith)
            requires
                n_mel_filters <= usize::MAX,
                n_mel_len <= usize::MAX,
        ;
    }
    let mel_total: u128 = n_mel_filters as u128 * n_mel_len as u128;
    if !has_items(b, 56, mel_total, 4) {
        return Err("read_f32_slice: failed to fill whole buffer".to_string());
    }
    let mel_total: usize = mel_total as usize;
    let mel_filters: Vec<u32> = get_singles(b, 56, mel_total);
    let vocab_pos: usize = 56 + 4 * mel_total;
    let n_vocab: usize = match read_i32(b, vocab_pos) {
        Ok(v) => v as usize,
        Err(e) => {
            return Err(e);
        },
    };
    let (vocab, pos) = match read_vocab(b, vocab_pos + 4, n_vocab) {
        Ok(v) => v,
        Err(e) => {
            return Err(e);
        },
    };
    match read_tensors(b, pos) {
        Ok(w) => Ok(
            ModelData {
                hparams,
                mel_filters,
                vocab,
                tensors: w.tensors,
                quantized_tensors: w.quantized,
            },
        ),
        Err(e) => Err(e),
    }
}

impl ModelData {
    /// Reads a model: a GGML model is parsed, a GGUF file is recognised by its magic, anything else
    /// is refused.
    pub fn load_from_reader(b: &[u8]) -> (r: Result<ModelFile, String>)
        ensures
            b@.len() < 4 ==> r is Err && r->Err_0@ == crate::model::format::failure_text(
                crate::model::format::LoadFailure::Magic,
            ),
            b@.len() >= 4 ==> {
                let magic = b@.take(4);
                if magic == crate::model::format::ggml_magic() {
                    match crate::model::format::ggml_model(b@) {
                        Ok(m) => r is Ok && r->Ok_0 is Ggml && (r->Ok_0)->Ggml_0@ == m,
                        Err(e) => r is Err && r->Err_0@ == crate::model::format::failure_text(e),
                    }
                } else if magic == crate::model::format::gguf_magic() {
                    r is Ok && r->Ok_0 is Gguf
                } else {
                    r is Err && r->Err_0@ == crate::model::format::failure_text(
                        crate::model::format::LoadFailure::UnknownMagic(magic),
                    )
                }
            },
    {
        if b.len() < 4 {
            return Err("read magic: failed to fill whole buffer".to_string());
        }
        let ghost magic = b@.take(4);
        assert(magic[0] == b@[0] && magic[1] == b@[1] && magic[2] == b@[2] && magic[3] == b@[3]);
        if b[0] == 0x6C && b[1] == 0x6D && b[2] == 0x67 && b[3] == 0x67 {
            assert(magic =~= crate::model::format::ggml_magic());
            return match load_ggml_from_reader(b) {
                Ok(m) => Ok(ModelFile::Ggml(m)),
                Err(e) => Err(e),
            };
        }
        if b[0] == 0x47 && b[1] == 0x47 && b[2] == 0x55 && b[3] == 0x46 {
            assert(magic =~= crate::model::format::gguf_magic());
            return Ok(ModelFile::Gguf);
        }
        let mut e: String = "Invalid magic: unknown format [".to_string();
        crate::text::append_hex_byte(&mut e, b[0]);
        e.append(", ");
        crate::text::append_hex_byte(&mut e, b[1]);
        e.append(", ");
        crate::text::append_hex_byte(&mut e, b[2]);
        e.append(", ");
        crate::text::append_hex_byte(&mut e, b[3]);
        e.append("]");
        Err(e)
    }
}

} // verus!
