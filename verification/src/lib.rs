//! A unified interface over two subword-tokenization backends: a pretrained
//! ("trained") tokenizer handled by the `tokenizers` crate, and a raw
//! byte-pair-encoding table loaded from a flat model file plus a JSON side
//! config, served through `tiktoken_rs`.
//!
//! The verified core covers the vocabulary loader (dense, gap-free id space
//! with deterministic reserved backfill tokens), the unified dispatch over the
//! two backends, and the decode-repair algorithm that makes `decode` total
//! over arbitrary id sequences, even when a cut point falls inside a
//! multi-byte character.

pub mod b64;
pub mod bpe;
pub mod digits;
pub mod errors;
pub mod hf;
pub mod model;
pub mod repair;
pub mod tokenizer;
pub mod vocab;
