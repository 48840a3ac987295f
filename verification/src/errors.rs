//! Error taxonomy: construction-time format errors, and per-call encode and
//! decode failures.

use vstd::prelude::*;

verus! {

/// Why a single model-file line was rejected.
#[derive(Debug, Clone, Copy, PartialEq, Eq, Structural)]
pub enum LineErrorKind {
    /// The token field is not valid standard base64.
    BadBase64,
    /// The line has a token field but no rank field.
    MissingRank,
    /// The rank field does not parse as a non-negative integer that fits the
    /// rank type.
    BadRank,
}

/// An error raised while building or using a tokenizer.
///
/// `Format`-class variants are fatal at construction: no tokenizer value is
/// produced. `Encode` and `Decode` are per-call failures of an already built
/// tokenizer.
#[derive(Debug)]
pub enum TokenizerError {
    /// A model-file line is malformed. `line` is the 1-based line number.
    Format { line: usize, kind: LineErrorKind },
    /// A key of the config's `added_tokens_decoder` map does not parse as a
    /// token id; the offending key is carried verbatim.
    BadSpecialId { key: String },
    /// The largest rank or special id is the maximum rank value, so the
    /// vocabulary size `max + 1` cannot be represented.
    RankOverflow,
    /// Two vocabulary entries carry the same rank, which the raw-BPE backend
    /// rejects.
    DuplicateRank { rank: u32 },
    /// Two distinct special-token texts carry the same id, so the backend's
    /// id-to-text table would be ambiguous.
    DuplicateSpecialId { id: u32 },
    /// A config entry's token text is empty; the offending key is carried.
    /// The raw-BPE backend's special-token scanner would match it as an
    /// empty piece and never advance.
    EmptySpecialToken { key: String },
    /// The raw-BPE backend refused its construction inputs (for example an
    /// invalid tokenization-boundary pattern).
    Backend { message: String },
    /// The backend could not encode the given text.
    Encode { message: String },
    /// The backend could not decode the given ids.
    Decode { message: String },
}

} // verus!
