//! GGML model files: hyperparameters, mel filters, vocabulary and weights.
//!
//! Weights keep the bit patterns of the file: 32-bit patterns for single precision, 16-bit
//! patterns for half precision, raw blocks for quantized tensors.

pub mod format;
pub mod laws;
pub mod reader;

use crate::quantize::types::{QuantType, QuantizedTensor};
use vstd::hash_map::StringHashMap;
use vstd::prelude::*;
use vstd::string::*;

verus! {

/// Whisper model hyperparameters (from the GGML header).
#[derive(Debug, Clone, Copy, PartialEq, Eq, Structural)]
pub struct Hparams {
    /// Vocabulary size (number of tokens).
    pub n_vocab: usize,
    /// Audio encoder context length (maximum encoder sequence length in frames).
    pub n_audio_ctx: usize,
    /// Hidden state size of the audio encoder.
    pub n_audio_state: usize,
    /// Number of attention heads in the audio encoder.
    pub n_audio_head: usize,
    /// Number of transformer layers in the audio encoder.
    pub n_audio_layer: usize,
    /// Text decoder context length (maximum decoder sequence length in tokens).
    pub n_text_ctx: usize,
    /// Hidden state size of the text decoder.
    pub n_text_state: usize,
    /// Number of attention heads in the text decoder.
    pub n_text_head: usize,
    /// Number of transformer layers in the text decoder.
    pub n_text_layer: usize,
    /// Number of mel filterbank channels.
    pub n_mels: usize,
    /// GGML weight type flag (0 = single, 1 = half, 2+ = quantized).
    pub ftype: i32,
}

/// Token vocabulary entry.
#[derive(Debug, Clone)]
pub struct VocabEntry {
    /// Decoded string for this token.
    pub text: String,
}

/// The elements of a tensor, as the file holds them.
#[derive(Debug)]
pub enum TensorData {
    /// Single-precision bit patterns.
    Single(Vec<u32>),
    /// Half-precision bit patterns.
    Half(Vec<u16>),
    /// Quantized blocks.
    Blocks(QuantType, Vec<u8>),
}

/// A weight tensor to be used unquantized.
#[derive(Debug)]
pub struct Tensor {
    /// The elements.
    pub data: TensorData,
    /// Logical shape.
    pub shape: Vec<usize>,
}

/// All loaded model data.
pub struct ModelData {
    /// Whisper model hyperparameters (dimensions, layer counts, etc.).
    pub hparams: Hparams,
    /// Bit patterns of the mel filterbank coefficients `[n_mels, n_fft/2+1]`, row-major.
    pub mel_filters: Vec<u32>,
    /// Token vocabulary; index is the token ID.
    pub vocab: Vec<VocabEntry>,
    /// Tensors to be used unquantized, by name.
    pub tensors: StringHashMap<Tensor>,
    /// Large quantized matrices, kept in their blocks, by name.
    pub quantized_tensors: StringHashMap<QuantizedTensor>,
}

/// What a model file holds.
pub enum ModelFile {
    /// A GGML model.
    Ggml(ModelData),
    /// The file begins with the GGUF magic; its body is for a GGUF reader.
    Gguf,
}

/// Model of [`TensorData`].
#[verifier::ext_equal]
pub enum DataView {
    /// Single-precision bit patterns.
    Single(Seq<u32>),
    /// Half-precision bit patterns.
    Half(Seq<u16>),
    /// Quantized blocks.
    Blocks(QuantType, Seq<u8>),
}

/// Model of [`Tensor`].
#[verifier::ext_equal]
pub struct TensorView {
    /// The elements.
    pub data: DataView,
    /// Logical shape.
    pub shape: Seq<usize>,
}

/// Model of [`QuantizedTensor`].
#[verifier::ext_equal]
pub struct QuantizedView {
    /// Quantization type.
    pub qtype: QuantType,
    /// Raw quantized bytes.
    pub raw: Seq<u8>,
    /// Logical shape.
    pub shape: Seq<usize>,
}

/// Model of [`ModelData`].
#[verifier::ext_equal]
pub struct ModelView {
    /// Hyperparameters.
    pub hparams: Hparams,
    /// Mel filter bit patterns.
    pub mel_filters: Seq<u32>,
    /// Token texts.
    pub vocab: Seq<Seq<char>>,
    /// Tensors to be used unquantized.
    pub tensors: Map<Seq<char>, TensorView>,
    /// Large quantized matrices.
    pub quantized_tensors: Map<Seq<char>, QuantizedView>,
}

impl View for TensorData {
    type V = DataView;

    open spec fn view(&self) -> DataView {
        match self {
            TensorData::Single(v) => DataView::Single(v@),
            TensorData::Half(v) => DataView::Half(v@),
            TensorData::Blocks(q, v) => DataView::Blocks(*q, v@),
        }
    }
}

impl View for Tensor {
    type V = TensorView;

    open spec fn view(&self) -> TensorView {
        TensorView { data: self.data@, shape: self.shape@ }
    }
}

/// The model of a quantized tensor.
pub open spec fn quantized_view(t: QuantizedTensor) -> QuantizedView {
    QuantizedView { qtype: t.qtype, raw: t.raw@, shape: t.shape@ }
}

/// The models of the tensors in a table.
pub open spec fn tensor_views(m: Map<Seq<char>, Tensor>) -> Map<Seq<char>, TensorView> {
    m.map_values(|t: Tensor| t@)
}

/// The models of the quantized tensors in a table.
pub open spec fn quantized_views(m: Map<Seq<char>, QuantizedTensor>) -> Map<
    Seq<char>,
    QuantizedView,
> {
    m.map_values(|t: QuantizedTensor| quantized_view(t))
}

/// The texts of a vocabulary.
pub open spec fn texts(vocab: Seq<VocabEntry>) -> Seq<Seq<char>> {
    vocab.map_values(|e: VocabEntry| e.text@)
}

impl View for ModelData {
    type V = ModelView;

    open spec fn view(&self) -> ModelView {
        ModelView {
            hparams: self.hparams,
            mel_filters: self.mel_filters@,
            vocab: texts(self.vocab@),
            tensors: tensor_views(self.tensors@),
            quantized_tensors: quantized_views(self.quantized_tensors@),
        }
    }
}

impl ModelData {
    /// Look up a tensor by name, returning an error if not found.
    pub fn get(&self, name: &str) -> (r: Result<&Tensor, String>)
        ensures
            match r {
                Ok(t) => self.tensors@.contains_key(name@) && *t == self.tensors@[name@],
                Err(e) => !self.tensors@.contains_key(name@) && e@ == "Missing tensor: "@ + name@,
            },
    {
        match self.tensors.get(name) {
            Some(t) => Ok(t),
            None => {
                let mut e: String = "Missing tensor: ".to_string();
                e.append(name);
                Err(e)
            },
        }
    }

    /// Look up a tensor by name, returning `None` if not found.
    pub fn try_get(&self, name: &str) -> (r: Option<&Tensor>)
        ensures
            match r {
                Some(t) => self.tensors@.contains_key(name@) && *t == self.tensors@[name@],
                None => !self.tensors@.contains_key(name@),
            },
    {
        self.tensors.get(name)
    }

    /// Look up a quantized tensor by name.
    pub fn get_quantized(&self, name: &str) -> (r: Option<&QuantizedTensor>)
        ensures
            match r {
                Some(t) => self.quantized_tensors@.contains_key(name@) && *t
                    == self.quantized_tensors@[name@],
                None => !self.quantized_tensors@.contains_key(name@),
            },
    {
        self.quantized_tensors.get(name)
    }

    /// Alias for `get_quantized`.
    pub fn try_get_quantized(&self, name: &str) -> (r: Option<&QuantizedTensor>)
        ensures
            match r {
                Some(t) => self.quantized_tensors@.contains_key(name@) && *t
                    == self.quantized_tensors@[name@],
                None => !self.quantized_tensors@.contains_key(name@),
            },
    {
        self.quantized_tensors.get(name)
    }
}

} // verus!
