//! A lossless byte-stream compressor built on adaptive binary arithmetic
//! coding with online context modeling: a bit-history state machine feeds a
//! context-indexed probability table (StateMap), whose prediction is refined
//! by a chain of five adaptive probability maps (APMs) before it reaches a
//! carryless 32-bit range coder. Compressor and decompressor replay exactly
//! the same model updates bit for bit, so every numeric rule here is part of
//! the stream format.

pub mod apm;
pub mod codec;
pub mod coder;
pub mod logistic;
pub mod predictor;
pub mod state_map;
pub mod state_table;

pub use codec::{compress, decompress, spec_compress, spec_decompress};
pub use coder::{Decoder, Encoder};
pub use predictor::Predictor;
