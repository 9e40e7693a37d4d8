//! The GGML file format: what model a byte sequence holds, and why it holds none.

use crate::model::{DataView, Hparams, ModelView, QuantizedView, TensorView};
use crate::quantize::types::QuantType;
use vstd::prelude::*;
use vstd::string::*;

verus! {

/// Why a model cannot be loaded.
pub enum LoadFailure {
    /// The file ends inside the magic.
    Magic,
    /// The magic is neither GGML's nor GGUF's.
    UnknownMagic(Seq<u8>),
    /// The file ends where an integer is expected.
    Int,
    /// The file ends inside single-precision data.
    Singles,
    /// The file ends inside a vocabulary entry.
    Vocab,
    /// The file ends inside a tensor's name.
    TensorName,
    /// The file ends inside half-precision data.
    Halves,
    /// The file ends inside quantized data.
    Blocks(QuantType),
    /// A tensor has a data type that is not supported.
    Dtype(i32, Seq<char>),
}

/// The message of a failed load.
pub open spec fn failure_text(e: LoadFailure) -> Seq<char> {
    match e {
        LoadFailure::Magic => "read magic: failed to fill whole buffer"@,
        LoadFailure::UnknownMagic(m) => "Invalid magic: unknown format ["@ + crate::text::hex_byte(
            m[0],
        ) + ", "@ + crate::text::hex_byte(m[1]) + ", "@ + crate::text::hex_byte(m[2]) + ", "@
            + crate::text::hex_byte(m[3]) + "]"@,
        LoadFailure::Int => "read_i32: failed to fill whole buffer"@,
        LoadFailure::Singles => "read_f32_slice: failed to fill whole buffer"@,
        LoadFailure::Vocab => "read vocab: failed to fill whole buffer"@,
        LoadFailure::TensorName => "read tensor name: failed to fill whole buffer"@,
        LoadFailure::Halves => "read f16 data: failed to fill whole buffer"@,
        LoadFailure::Blocks(QuantType::Q4_0) => "read Q4_0 data: failed to fill whole buffer"@,
        LoadFailure::Blocks(QuantType::Q5_0) => "read Q5_0 data: failed to fill whole buffer"@,
        LoadFailure::Blocks(QuantType::Q8_0) => "read Q8_0 data: failed to fill whole buffer"@,
        LoadFailure::Dtype(dtype, name) => "Unsupported tensor dtype: "@ + crate::text::decimal(
            dtype as int,
        ) + " for "@ + name,
    }
}

/// The `n` 32-bit patterns at `pos`.
pub open spec fn singles_at(b: Seq<u8>, pos: int, n: nat) -> Seq<u32> {
    Seq::new(n, |i: int| crate::le::u32_at(b, pos + 4 * i))
}

/// The `n` 16-bit patterns at `pos`.
pub open spec fn halves_at(b: Seq<u8>, pos: int, n: nat) -> Seq<u16> {
    Seq::new(n, |i: int| crate::le::u16_at(b, pos + 2 * i))
}

/// The `n` dimensions at `pos`.
pub open spec fn dims_at(b: Seq<u8>, pos: int, n: nat) -> Seq<usize> {
    Seq::new(n, |i: int| crate::le::i32_at(b, pos + 4 * i) as usize)
}

/// The count at `pos`.
pub open spec fn count_at(b: Seq<u8>, pos: int) -> nat {
    (crate::le::i32_at(b, pos) as usize) as nat
}

/// The hyperparameters at `pos`.
pub open spec fn hparams_at(b: Seq<u8>, pos: int) -> Hparams {
    Hparams {
        n_vocab: crate::le::i32_at(b, pos) as usize,
        n_audio_ctx: crate::le::i32_at(b, pos + 4) as usize,
        n_audio_state: crate::le::i32_at(b, pos + 8) as usize,
        n_audio_head: crate::le::i32_at(b, pos + 12) as usize,
        n_audio_layer: crate::le::i32_at(b, pos + 16) as usize,
        n_text_ctx: crate::le::i32_at(b, pos + 20) as usize,
        n_text_state: crate::le::i32_at(b, pos + 24) as usize,
        n_text_head: crate::le::i32_at(b, pos + 28) as usize,
        n_text_layer: crate::le::i32_at(b, pos + 32) as usize,
        n_mels: crate::le::i32_at(b, pos + 36) as usize,
        ftype: crate::le::i32_at(b, pos + 40),
    }
}

/// Reads `n` vocabulary entries at `pos` and appends their texts to `read`; gives the texts and
/// where the entries end.
pub open spec fn vocab_from(b: Seq<u8>, pos: int, n: nat, read: Seq<Seq<char>>) -> Result<
    (Seq<Seq<char>>, int),
    LoadFailure,
>
    decreases n,
{
    if n == 0 {
        Ok((read, pos))
    } else if !crate::le::available(b, pos, 4) {
        Err(LoadFailure::Int)
    } else {
        let len = count_at(b, pos) as int;
        if !crate::le::available(b, pos + 4, len) {
            Err(LoadFailure::Vocab)
        } else {
            vocab_from(
                b,
                pos + 4 + len,
                (n - 1) as nat,
                read.push(crate::text::text_of(b.subrange(pos + 4, pos + 4 + len))),
            )
        }
    }
}

/// How the elements of a tensor are stored.
pub enum Storage {
    /// Single precision.
    Single,
    /// Half precision.
    Half,
    /// Quantized blocks.
    Blocks(QuantType),
}

/// The storage that a GGML data type number stands for.
pub open spec fn storage_of(dtype: i32) -> Option<Storage> {
    if dtype == 0 {
        Some(Storage::Single)
    } else if dtype == 1 {
        Some(Storage::Half)
    } else if dtype == 2 {
        Some(Storage::Blocks(QuantType::Q4_0))
    } else if dtype == 3 {
        Some(Storage::Blocks(QuantType::Q8_0))
    } else if dtype == 6 {
        Some(Storage::Blocks(QuantType::Q5_0))
    } else {
        None
    }
}

/// The number of bytes that `n` elements take.
pub open spec fn storage_bytes(s: Storage, n: nat) -> nat {
    match s {
        Storage::Single => 4 * n,
        Storage::Half => 2 * n,
        Storage::Blocks(q) => n / q.values_per_block() * q.bytes_per_block(),
    }
}

/// The failure of a file that ends inside a tensor's elements.
pub open spec fn storage_failure(s: Storage) -> LoadFailure {
    match s {
        Storage::Single => LoadFailure::Singles,
        Storage::Half => LoadFailure::Halves,
        Storage::Blocks(q) => LoadFailure::Blocks(q),
    }
}

/// The elements at `pos`.
pub open spec fn data_at(b: Seq<u8>, pos: int, s: Storage, n: nat) -> DataView {
    match s {
        Storage::Single => DataView::Single(singles_at(b, pos, n)),
        Storage::Half => DataView::Half(halves_at(b, pos, n)),
        Storage::Blocks(q) => DataView::Blocks(
            q,
            b.subrange(pos, pos + storage_bytes(s, n)),
        ),
    }
}

/// A tensor as the file holds it.
pub struct NamedTensor {
    /// Name, without trailing NUL characters.
    pub name: Seq<char>,
    /// Elements and shape.
    pub tensor: TensorView,
    /// Where the tensor ends in the file.
    pub end: int,
}

/// Reads the tensor at `pos`: number of dimensions, length of the name, data type, dimensions,
/// name, elements.
pub open spec fn tensor_at(b: Seq<u8>, pos: int) -> Result<NamedTensor, LoadFailure> {
    let n_dims = count_at(b, pos) as int;
    if !crate::le::available(b, pos + 4, 8) || !crate::le::available(b, pos + 12, 4 * n_dims) {
        Err(LoadFailure::Int)
    } else {
        let name_len = count_at(b, pos + 4) as int;
        let name_pos = pos + 12 + 4 * n_dims;
        if !crate::le::available(b, name_pos, name_len) {
            Err(LoadFailure::TensorName)
        } else {
            let name = crate::text::without_trailing_nuls(
                crate::text::text_of(b.subrange(name_pos, name_pos + name_len)),
            );
            let shape = dims_at(b, pos + 12, n_dims as nat);
            let n = crate::quantize::types::product(shape);
            let dtype = crate::le::i32_at(b, pos + 8);
            let data_pos = name_pos + name_len;
            match storage_of(dtype) {
                None => Err(LoadFailure::Dtype(dtype, name)),
                Some(s) => if !crate::le::available(b, data_pos, storage_bytes(s, n) as int) {
                    Err(storage_failure(s))
                } else {
                    Ok(
                        NamedTensor {
                            name,
                            tensor: TensorView { data: data_at(b, data_pos, s, n), shape },
                            end: data_pos + storage_bytes(s, n),
                        },
                    )
                },
            }
        }
    }
}

/// Whether a tensor of this shape stays in its blocks: a matrix of more than 1024 elements.
pub open spec fn is_large_matrix(shape: Seq<usize>) -> bool {
    shape.len() == 2 && crate::quantize::types::product(shape) > 1024
}

/// The two tables of a model.
#[verifier::ext_equal]
pub struct Tables {
    /// Tensors to be used unquantized.
    pub tensors: Map<Seq<char>, TensorView>,
    /// Large quantized matrices.
    pub quantized: Map<Seq<char>, QuantizedView>,
}

/// The tables with one more tensor: a large quantized matrix goes to the quantized table,
/// anything else to the other. A later tensor replaces an earlier one of its name there.
pub open spec fn with_tensor(t: Tables, name: Seq<char>, tensor: TensorView) -> Tables {
    match tensor.data {
        DataView::Blocks(qtype, raw) if is_large_matrix(tensor.shape) => Tables {
            quantized: t.quantized.insert(name, QuantizedView { qtype, raw, shape: tensor.shape }),
            ..t
        },
        _ => Tables { tensors: t.tensors.insert(name, tensor), ..t },
    }
}

/// Reads tensors from `pos` on, as long as four bytes are left for another one, and adds them
/// to `t`.
pub open spec fn tensors_from(b: Seq<u8>, pos: int, t: Tables) -> Result<Tables, LoadFailure>
    decreases b.len() - pos,
{
    if !crate::le::available(b, pos, 4) {
        Ok(t)
    } else {
        match tensor_at(b, pos) {
            Err(e) => Err(e),
            Ok(n) => tensors_from(b, n.end, with_tensor(t, n.name, n.tensor)),
        }
    }
}

/// The model in the body of a GGML file, which begins behind the four bytes of the magic.
pub open spec fn ggml_model(b: Seq<u8>) -> Result<ModelView, LoadFailure> {
    if !crate::le::available(b, 4, 52) {
        Err(LoadFailure::Int)
    } else {
        let n_filters = count_at(b, 48) * count_at(b, 52);
        let vocab_pos = 56 + 4 * (n_filters as int);
        if !crate::le::available(b, 56, 4 * (n_filters as int)) {
            Err(LoadFailure::Singles)
        } else if !crate::le::available(b, vocab_pos, 4) {
            Err(LoadFailure::Int)
        } else {
            match vocab_from(b, vocab_pos + 4, count_at(b, vocab_pos), Seq::empty()) {
                Err(e) => Err(e),
                Ok((vocab, pos)) => match tensors_from(
                    b,
                    pos,
                    Tables { tensors: Map::empty(), quantized: Map::empty() },
                ) {
                    Err(e) => Err(e),
                    Ok(t) => Ok(
                        ModelView {
                            hparams: hparams_at(b, 4),
                            mel_filters: singles_at(b, 56, n_filters),
                            vocab,
                            tensors: t.tensors,
                            quantized_tensors: t.quantized,
                        },
                    ),
                },
            }
        }
    }
}

/// The magic of a GGML file.
pub open spec fn ggml_magic() -> Seq<u8> {
    seq![0x6C, 0x6D, 0x67, 0x67]
}

/// The magic of a GGUF file.
pub open spec fn gguf_magic() -> Seq<u8> {
    seq![0x47, 0x47, 0x55, 0x46]
}

} // verus!
