//! GGML block quantization: Q4_0, Q5_0 and Q8_0.

pub mod dequantize;
pub mod dot_scalar;
pub mod laws;
pub mod types;

pub use dequantize::dequantize;
pub use dot_scalar::{dot_q4_0, dot_q5_0, dot_q8_0};
pub use types::{
    QuantType, QuantizedTensor, Q4_0_BLOCK_BYTES, Q4_0_BLOCK_SIZE, Q5_0_BLOCK_BYTES,
    Q5_0_BLOCK_SIZE, Q8_0_BLOCK_BYTES, Q8_0_BLOCK_SIZE,
};
