//! Numeric core of a tensor inference engine: strided tensors, vectorised
//! map/fold primitives with tail padding, and the packing and micro-kernel
//! machinery of a blocked matrix multiplication, with an 8-bit quantized
//! path whose results are exact.
pub mod layout;
pub mod tensor;
pub mod packing;
pub mod quant;
pub mod tile;
pub mod kernels;
pub mod simd;
pub mod im2col;
pub mod gemm;
