//! The calls into the `tokenizers` crate: the trained backend. Its
//! serialized descriptor, pipeline and vocabulary are opaque to this core —
//! it is used only through the operations below, whose outcomes the spec
//! deliberately leaves open.

use vstd::prelude::*;

verus! {

#[verifier::external_type_specification]
#[verifier::external_body]
pub struct ExTokenizer(tokenizers::tokenizer::Tokenizer);

#[verifier::external_type_specification]
#[verifier::external_body]
pub struct ExEncoding(tokenizers::tokenizer::Encoding);

/// Whether descriptor bytes deserialize into a trained tokenizer: a pure
/// function of the bytes.
pub uninterp spec fn hf_parse_ok(bytes: Seq<u8>) -> bool;

/// The trained tokenizer that descriptor bytes deserialize into, where they
/// do: deserialization is deterministic, so the value is a function of the
/// bytes.
pub uninterp spec fn hf_parsed(bytes: Seq<u8>) -> tokenizers::tokenizer::Tokenizer;

/// The trained tokenizer with truncation installed at the given maximum
/// length and direction (the crate's defaults for stride and strategy): a
/// deterministic update of the value.
pub uninterp spec fn hf_truncated(
    t: tokenizers::tokenizer::Tokenizer,
    max_length: usize,
    left: bool,
) -> tokenizers::tokenizer::Tokenizer;

/// The trained tokenizer with its special-token-markup flag set: setting
/// the flag is deterministic, so the outcome is a function of the old
/// value and the flag.
pub uninterp spec fn hf_flag_set(
    t: tokenizers::tokenizer::Tokenizer,
    value: bool,
) -> tokenizers::tokenizer::Tokenizer;

/// What the trained backend's decode yields for an id sequence — `None`
/// where it reports an error — a pure function of the backend value, the
/// ids and the skip flag.
pub uninterp spec fn hf_decoded(
    t: tokenizers::tokenizer::Tokenizer,
    ids: Seq<u32>,
    skip_special_tokens: bool,
) -> Option<Seq<char>>;

/// The trained backend's vocabulary count: a pure function of its tables.
pub uninterp spec fn hf_vocab_count(
    t: tokenizers::tokenizer::Tokenizer,
    with_added_tokens: bool,
) -> usize;

/// How many tokens the trained backend's post-processor adds to a single
/// sequence.
pub uninterp spec fn hf_added_tokens(t: tokenizers::tokenizer::Tokenizer) -> usize;

/// The common length of an encoding's parallel sequences: ids, type ids,
/// token strings, masks and offsets all have it.
pub uninterp spec fn hf_encoding_len(e: tokenizers::tokenizer::Encoding) -> nat;

/// Relies on `Tokenizer::from_bytes`: deserializes a trained tokenizer from
/// its descriptor bytes, failing exactly on a malformed descriptor — a
/// deterministic verdict of the bytes.
#[verifier::external_body]
pub(crate) fn hf_from_bytes(bytes: &[u8]) -> (r: Result<tokenizers::tokenizer::Tokenizer, String>)
    ensures
        r is Ok <==> hf_parse_ok(bytes@),
        r is Ok ==> r->Ok_0 == hf_parsed(bytes@),
{
    match tokenizers::tokenizer::Tokenizer::from_bytes(bytes) {
        Ok(t) => Ok(t),
        Err(e) => Err(format!("{}", e)),
    }
}

/// Relies on `TokenizerImpl::with_truncation`: installs truncation
/// parameters with the given length and direction, the crate's defaults
/// (stride zero, longest-first) for the rest. With stride zero the only
/// failure check never fires, and the subtraction of the post-processor's
/// added-token count cannot underflow under the precondition, so the call
/// succeeds.
#[verifier::external_body]
pub(crate) fn hf_with_truncation(
    t: &mut tokenizers::tokenizer::Tokenizer,
    max_length: usize,
    direction: crate::tokenizer::TruncationDirection,
) -> (r: Result<(), String>)
    requires
        max_length >= hf_added_tokens(*old(t)),
    ensures
        r is Ok,
        *final(t) == hf_truncated(*old(t), max_length, direction is Left),
{
    let direction = match direction {
        crate::tokenizer::TruncationDirection::Left => tokenizers::TruncationDirection::Left,
        crate::tokenizer::TruncationDirection::Right => tokenizers::TruncationDirection::Right,
    };
    let params = tokenizers::TruncationParams { max_length, direction, ..Default::default() };
    match t.with_truncation(Some(params)) {
        Ok(_) => Ok(()),
        Err(e) => Err(format!("{}", e)),
    }
}

/// Relies on `TokenizerImpl::encode`: runs the trained pipeline on the
/// text. Its outcome is not named: a pipeline may be randomized (byte-pair
/// models support merge dropout), so the result is not a function of the
/// arguments alone.
#[verifier::external_body]
pub(crate) fn hf_encode(t: &tokenizers::tokenizer::Tokenizer, text: &str, add_special_tokens: bool)
    -> (r: Result<tokenizers::tokenizer::Encoding, String>) {
    match t.encode(text, add_special_tokens) {
        Ok(e) => Ok(e),
        Err(e) => Err(format!("{}", e)),
    }
}

/// Relies on `Encoding::get_ids`: the encoding's parallel sequences share
/// one length.
#[verifier::external_body]
pub(crate) fn hf_encoding_ids(e: &tokenizers::tokenizer::Encoding) -> (r: Vec<u32>)
    ensures
        r@.len() == hf_encoding_len(*e),
{
    e.get_ids().to_vec()
}

/// Relies on `Encoding::get_type_ids`: parallel to the ids.
#[verifier::external_body]
pub(crate) fn hf_encoding_type_ids(e: &tokenizers::tokenizer::Encoding) -> (r: Vec<u32>)
    ensures
        r@.len() == hf_encoding_len(*e),
{
    e.get_type_ids().to_vec()
}

/// Relies on `Encoding::get_tokens`: parallel to the ids.
#[verifier::external_body]
pub(crate) fn hf_encoding_tokens(e: &tokenizers::tokenizer::Encoding) -> (r: Vec<String>)
    ensures
        r@.len() == hf_encoding_len(*e),
{
    e.get_tokens().to_vec()
}

/// Relies on `Encoding::get_special_tokens_mask`: parallel to the ids.
#[verifier::external_body]
pub(crate) fn hf_encoding_special_tokens_mask(e: &tokenizers::tokenizer::Encoding) -> (r: Vec<
    u32,
>)
    ensures
        r@.len() == hf_encoding_len(*e),
{
    e.get_special_tokens_mask().to_vec()
}

/// Relies on `Encoding::get_attention_mask`: parallel to the ids.
#[verifier::external_body]
pub(crate) fn hf_encoding_attention_mask(e: &tokenizers::tokenizer::Encoding) -> (r: Vec<u32>)
    ensures
        r@.len() == hf_encoding_len(*e),
{
    e.get_attention_mask().to_vec()
}

/// Relies on `Encoding::get_offsets`: parallel to the ids.
#[verifier::external_body]
pub(crate) fn hf_encoding_offsets(e: &tokenizers::tokenizer::Encoding) -> (r: Vec<(usize, usize)>)
    ensures
        r@.len() == hf_encoding_len(*e),
{
    e.get_offsets().to_vec()
}

/// Relies on `TokenizerImpl::decode`: resolves each id, drops special
/// tokens when asked, and joins through the pipeline's decoder — a
/// deterministic function of the backend value, the ids and the flag.
#[verifier::external_body]
pub(crate) fn hf_decode(t: &tokenizers::tokenizer::Tokenizer, ids: &[u32], skip_special_tokens: bool)
    -> (r: Result<String, String>)
    ensures
        r is Ok <==> hf_decoded(*t, ids@, skip_special_tokens) is Some,
        r is Ok ==> r->Ok_0@ == hf_decoded(*t, ids@, skip_special_tokens).unwrap(),
{
    match t.decode(ids, skip_special_tokens) {
        Ok(s) => Ok(s),
        Err(e) => Err(format!("{}", e)),
    }
}

/// Relies on `TokenizerImpl::get_vocab_size`: a deterministic count of the
/// backend's tables.
#[verifier::external_body]
pub(crate) fn hf_vocab_size(t: &tokenizers::tokenizer::Tokenizer, with_added_tokens: bool) -> (r:
    usize)
    ensures
        r == hf_vocab_count(*t, with_added_tokens),
{
    t.get_vocab_size(with_added_tokens)
}

/// Relies on `TokenizerImpl::set_encode_special_tokens`: sets the trained
/// backend's flag for honoring special-token markup during encode, a
/// deterministic update of the value.
#[verifier::external_body]
pub(crate) fn hf_set_encode_special_tokens(t: &mut tokenizers::tokenizer::Tokenizer, value: bool)
    ensures
        *final(t) == hf_flag_set(*old(t), value),
{
    t.set_encode_special_tokens(value);
}

/// Relies on `TokenizerImpl::get_post_processor` and
/// `PostProcessor::added_tokens`: how many tokens post-processing adds to a
/// single sequence, zero without a post-processor — the count
/// `with_truncation` subtracts from the maximum length.
#[verifier::external_body]
pub(crate) fn hf_added_token_count(t: &tokenizers::tokenizer::Tokenizer) -> (r: usize)
    ensures
        r == hf_added_tokens(*t),
{
    t.get_post_processor().map_or(0, |p| {
        tokenizers::tokenizer::PostProcessor::added_tokens(p, false)
    })
}

} // verus!
