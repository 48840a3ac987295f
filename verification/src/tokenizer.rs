//! The unified tokenizer: one entry point over the two backends. The
//! trained backend delegates to the `tokenizers` crate; the raw-BPE backend
//! carries the loaded vocabulary and routes decoding through the repair
//! rule, so its `decode` is total and exact.

use vstd::prelude::*;
use vstd::utf8::encode_utf8;
use crate::bpe::{
    boundary_pos, bpe_construction_ok, bpe_covers, bpe_decode, bpe_empty_piece, bpe_encode,
    bpe_encoding, bpe_keys, bpe_new, bpe_specials, bpe_table, bytes_covered, decode_table_of,
    guard_slice, lemma_specials_map_dom, occurs_at, pairs_key_set, pattern_empty_piece,
    pattern_empty_piece_on, special_views, specials_map, string_set,
};
use crate::errors::TokenizerError;
use crate::model::{model_pairs_spec, pair_views};
use crate::vocab::{
    entry_contents, entry_ids_spec, entry_keys, first_dup_from, lemma_backfill,
    lemma_entry_ids_len, lemma_no_dup_distinct, load_vocabulary, max_rank_of, ranks_distinct,
    string_views, vocab_size_max, with_backfill, AddedToken,
};
use crate::hf::{
    hf_added_token_count, hf_added_tokens, hf_decode, hf_decoded, hf_encode,
    hf_encoding_attention_mask, hf_encoding_ids, hf_encoding_offsets,
    hf_encoding_special_tokens_mask, hf_encoding_tokens, hf_encoding_type_ids, hf_flag_set,
    hf_from_bytes, hf_parse_ok, hf_parsed, hf_set_encode_special_tokens, hf_truncated,
    hf_vocab_count, hf_vocab_size, hf_with_truncation,
};
use crate::repair::{
    all_known, best_prefix_len, decode_spec, direct_decode, drop_special_ids,
    lemma_best_prefix_value, replacement_run, token_bytes,
};
use vstd::utf8::valid_utf8;

verus! {

/// Truncation direction for the trained backend's truncation setting.
#[derive(Debug, Clone, Copy, PartialEq, Eq, Structural)]
pub enum TruncationDirection {
    Left,
    Right,
}

impl TruncationDirection {
    /// Create from a byte flag: `0` is left, `1` is right, anything else is
    /// invalid.
    pub fn from_u8(value: u8) -> (r: Option<TruncationDirection>)
        ensures
            value == 0 ==> r == Option::Some(TruncationDirection::Left),
            value == 1 ==> r == Option::Some(TruncationDirection::Right),
            value > 1 ==> r is None,
    {
        match value {
            0 => Option::Some(TruncationDirection::Left),
            1 => Option::Some(TruncationDirection::Right),
            _ => Option::None,
        }
    }

}

/// Construction options for a trained tokenizer loaded from bytes.
#[allow(non_camel_case_types)]
#[derive(Debug, Clone, Copy, PartialEq, Eq, Structural)]
pub struct tokenizers_options {
    pub encode_special_tokens: bool,
}

/// Which optional sequences an encode call should report.
#[allow(non_camel_case_types)]
#[derive(Debug, Clone, Copy, PartialEq, Eq, Structural)]
pub struct tokenizers_encode_options {
    pub add_special_tokens: bool,
    pub return_type_ids: bool,
    pub return_tokens: bool,
    pub return_special_tokens_mask: bool,
    pub return_attention_mask: bool,
    pub return_offsets: bool,
}

/// Encode options of the batch-oriented surface; `with_offsets_char_mode`
/// selects character instead of byte offsets.
#[derive(Debug, Clone, Copy, PartialEq, Eq, Structural)]
pub struct EncodeOptions {
    pub add_special_tokens: bool,
    pub return_type_ids: bool,
    pub return_special_tokens_mask: bool,
    pub return_attention_mask: bool,
    pub return_offsets: bool,
    pub with_offsets_char_mode: bool,
}

/// A `(start, end)` span in the original text for one produced token.
#[derive(Debug, Clone, Copy, PartialEq, Eq, Structural)]
pub struct Offset {
    pub start: usize,
    pub end: usize,
}

/// Offsets as spans.
pub fn offsets_from_pairs(offsets: &Vec<(usize, usize)>) -> (r: Vec<Offset>)
    ensures
        r@.len() == offsets@.len(),
        forall|i: int|
            0 <= i < offsets@.len() ==> (#[trigger] r@[i]).start == offsets@[i].0 && r@[i].end
                == offsets@[i].1,
{
    let mut out: Vec<Offset> = Vec::new();
    let mut i: usize = 0;
    while i < offsets.len()
        invariant
            0 <= i <= offsets@.len(),
            out@.len() == i,
            forall|j: int|
                0 <= j < i ==> (#[trigger] out@[j]).start == offsets@[j].0 && out@[j].end
                    == offsets@[j].1,
        decreases offsets@.len() - i,
    {
        out.push(Offset { start: offsets[i].0, end: offsets[i].1 });
        i = i + 1;
    }
    out
}

/// What one encode call reports: the ids always, and each optional parallel
/// sequence either fully present or fully absent.
pub struct EncodingDetails {
    pub ids: Vec<u32>,
    pub type_ids: Option<Vec<u32>>,
    pub tokens: Option<Vec<String>>,
    pub special_tokens_mask: Option<Vec<u32>>,
    pub attention_mask: Option<Vec<u32>>,
    pub offsets: Option<Vec<(usize, usize)>>,
}

impl EncodingDetails {
    /// Keep only the optional sequences the options ask for.
    pub fn select_fields(self, options: &tokenizers_encode_options) -> (r: EncodingDetails)
        ensures
            r.ids == self.ids,
            r.type_ids == (if options.return_type_ids {
                self.type_ids
            } else {
                Option::<Vec<u32>>::None
            }),
            r.tokens == (if options.return_tokens {
                self.tokens
            } else {
                Option::<Vec<String>>::None
            }),
            r.special_tokens_mask == (if options.return_special_tokens_mask {
                self.special_tokens_mask
            } else {
                Option::<Vec<u32>>::None
            }),
            r.attention_mask == (if options.return_attention_mask {
                self.attention_mask
            } else {
                Option::<Vec<u32>>::None
            }),
            r.offsets == (if options.return_offsets {
                self.offsets
            } else {
                Option::<Vec<(usize, usize)>>::None
            }),
    {
        let EncodingDetails { ids, type_ids, tokens, special_tokens_mask, attention_mask, offsets }
            = self;
        EncodingDetails {
            ids,
            type_ids: if options.return_type_ids {
                type_ids
            } else {
                Option::None
            },
            tokens: if options.return_tokens {
                tokens
            } else {
                Option::None
            },
            special_tokens_mask: if options.return_special_tokens_mask {
                special_tokens_mask
            } else {
                Option::None
            },
            attention_mask: if options.return_attention_mask {
                attention_mask
            } else {
                Option::None
            },
            offsets: if options.return_offsets {
                offsets
            } else {
                Option::None
            },
        }
    }

    /// Keep only the optional sequences the batch options ask for; the
    /// batch surface always reports token strings.
    pub fn select_batch_fields(self, options: &EncodeOptions) -> (r: EncodingDetails)
        ensures
            r.ids == self.ids,
            r.tokens == self.tokens,
            r.type_ids == (if options.return_type_ids {
                self.type_ids
            } else {
                Option::<Vec<u32>>::None
            }),
            r.special_tokens_mask == (if options.return_special_tokens_mask {
                self.special_tokens_mask
            } else {
                Option::<Vec<u32>>::None
            }),
            r.attention_mask == (if options.return_attention_mask {
                self.attention_mask
            } else {
                Option::<Vec<u32>>::None
            }),
            r.offsets == (if options.return_offsets {
                self.offsets
            } else {
                Option::<Vec<(usize, usize)>>::None
            }),
    {
        let EncodingDetails { ids, type_ids, tokens, special_tokens_mask, attention_mask, offsets }
            = self;
        EncodingDetails {
            ids,
            type_ids: if options.return_type_ids {
                type_ids
            } else {
                Option::None
            },
            tokens,
            special_tokens_mask: if options.return_special_tokens_mask {
                special_tokens_mask
            } else {
                Option::None
            },
            attention_mask: if options.return_attention_mask {
                attention_mask
            } else {
                Option::None
            },
            offsets: if options.return_offsets {
                offsets
            } else {
                Option::None
            },
        }
    }
}

/// The raw-BPE backend: the tiktoken engine plus the loaded special-token
/// sets, the vocabulary size, and a table of which single bytes are
/// ordinary tokens.
pub struct TiktokenBackend {
    pub bpe: tiktoken_rs::CoreBPE,
    pub vocab_size: u32,
    pub special_tokens: Vec<String>,
    pub special_token_ids: Vec<u32>,
    pub byte_present: Vec<bool>,
    pub pattern: String,
    pub has_empty_token: bool,
}

impl TiktokenBackend {
    /// The cached tables agree with the engine's own: the single-byte and
    /// empty-token records mirror the engine's key set, the stored pattern
    /// text is the one the engine compiled, and construction kept out the
    /// empty special-token text the engine's scan cannot advance past.
    pub open spec fn wf(self) -> bool {
        &&& self.byte_present@.len() == 256
        &&& (forall|b: u8|
            (#[trigger] self.byte_present@[b as int]) == bpe_keys(self.bpe).contains(seq![b]))
        &&& self.has_empty_token == bpe_keys(self.bpe).contains(Seq::<u8>::empty())
        &&& !bpe_specials(self.bpe).contains_key(Seq::<char>::empty())
        &&& (forall|i: int|
            0 <= i < self.special_tokens@.len() ==> (#[trigger] self.special_tokens@[i])@.len()
                > 0)
        &&& (forall|sl: Seq<u8>|
            (#[trigger] bpe_empty_piece(self.bpe, sl)) == pattern_empty_piece(self.pattern@, sl))
    }
}

/// The engine's piece scan is safe for this text and allowed set: either
/// the empty byte string is itself a token, or no stretch the special
/// splitting could scan has a zero-width pattern match.
pub open spec fn pieces_safe_spec(
    t: TiktokenBackend,
    text: Seq<char>,
    allowed_texts: Seq<Seq<char>>,
) -> bool {
    t.has_empty_token || (forall|s: int, e: int|
        #[trigger] guard_slice(encode_utf8(text), allowed_texts, s, e) ==> !pattern_empty_piece(
            t.pattern@,
            encode_utf8(text).subrange(s, e),
        ))
}

/// The unified tokenizer: a trained backend or a raw-BPE backend behind one
/// interface.
pub enum UnifiedTokenizer {
    HuggingFace(tokenizers::tokenizer::Tokenizer),
    Tiktoken(TiktokenBackend),
}

impl UnifiedTokenizer {
    /// The backend's cached state is consistent.
    pub open spec fn wf(self) -> bool {
        match self {
            UnifiedTokenizer::HuggingFace(_) => true,
            UnifiedTokenizer::Tiktoken(t) => t.wf(),
        }
    }

    /// The vocabulary size: the loaded size for raw BPE, the trained
    /// backend's own count (with added tokens) otherwise.
    pub fn vocab_size(&self) -> (r: u32)
        ensures
            self is Tiktoken ==> r == self->Tiktoken_0.vocab_size,
            self is HuggingFace ==> r == hf_vocab_count(self->HuggingFace_0, true) as u32,
    {
        match self {
            UnifiedTokenizer::HuggingFace(tok) => {
                let n = hf_vocab_size(tok, true);
                #[verifier::truncate] (n as u32)
            },
            UnifiedTokenizer::Tiktoken(t) => t.vocab_size,
        }
    }

    /// Whether toggling special-token encoding has any effect: only the
    /// trained backend supports it.
    pub fn supports_encode_special_tokens(&self) -> (r: bool)
        ensures
            r <==> self is HuggingFace,
    {
        match self {
            UnifiedTokenizer::HuggingFace(_) => true,
            UnifiedTokenizer::Tiktoken(_) => false,
        }
    }

    /// Set whether the trained backend honors special-token markup during
    /// encode. For the raw-BPE backend this is a documented no-op: it
    /// returns successfully and changes nothing, so generic callers never
    /// need a backend check.
    pub fn set_encode_special_tokens(&mut self, encode_special_tokens: bool)
        ensures
            (*old(self)) is Tiktoken ==> *final(self) == *old(self),
            (*old(self)) is HuggingFace ==> *final(self) == UnifiedTokenizer::HuggingFace(
                hf_flag_set(old(self)->HuggingFace_0, encode_special_tokens),
            ),
            old(self).wf() ==> final(self).wf(),
    {
        match self {
            UnifiedTokenizer::HuggingFace(tok) => {
                hf_set_encode_special_tokens(tok, encode_special_tokens);
            },
            UnifiedTokenizer::Tiktoken(_) => {},
        }
    }

    /// Decode ids to text. For the raw-BPE backend this never fails: ids
    /// filtered of special tokens (when asked) are decoded directly, and a
    /// failed direct decode keeps the longest decodable prefix and turns
    /// each remaining id into one replacement character. The trained
    /// backend delegates to its own filtering and failure semantics.
    #[verifier::loop_isolation(false)]
    pub fn decode(&self, ids: &[u32], skip_special_tokens: bool) -> (r: Result<
        String,
        TokenizerError,
    >)
        requires
            self.wf(),
        ensures
            self is Tiktoken ==> r is Ok,
            self is Tiktoken ==> r->Ok_0@ == decode_spec(
                bpe_table(self->Tiktoken_0.bpe),
                if skip_special_tokens {
                    drop_special_ids(ids@, self->Tiktoken_0.special_token_ids@)
                } else {
                    ids@
                },
            ),
            self is HuggingFace ==> (r is Ok <==> hf_decoded(
                self->HuggingFace_0,
                ids@,
                skip_special_tokens,
            ) is Some),
            self is HuggingFace ==> (r is Ok ==> r->Ok_0@ == hf_decoded(
                self->HuggingFace_0,
                ids@,
                skip_special_tokens,
            ).unwrap()),
            self is HuggingFace ==> (r is Err ==> r->Err_0 is Decode),
    {
        match self {
            UnifiedTokenizer::HuggingFace(tok) => {
                match hf_decode(tok, ids, skip_special_tokens) {
                    Result::Ok(s) => Result::Ok(s),
                    Result::Err(m) => Result::Err(TokenizerError::Decode { message: m }),
                }
            },
            UnifiedTokenizer::Tiktoken(t) => {
                let ghost table = bpe_table(t.bpe);
                let mut work: Vec<u32> = Vec::new();
                if skip_special_tokens {
                    let mut i: usize = 0;
                    proof {
                        assert(ids@.take(0) =~= Seq::<u32>::empty());
                        assert(drop_special_ids(Seq::<u32>::empty(), t.special_token_ids@)
                            =~= Seq::<u32>::empty()) by {
                            reveal(Seq::filter);
                        }
                    }
                    while i < ids.len()
                        invariant
                            0 <= i <= ids@.len(),
                            work@ == drop_special_ids(ids@.take(i as int), t.special_token_ids@),
                        decreases ids@.len() - i,
                    {
                        let id = ids[i];
                        let keep = !contains_id(&t.special_token_ids, id);
                        proof {
                            reveal(Seq::filter);
                            assert(ids@.take(i + 1).drop_last() =~= ids@.take(i as int));
                            assert(ids@.take(i + 1).last() == ids@[i as int]);
                        }
                        if keep {
                            work.push(id);
                        }
                        i = i + 1;
                    }
                    proof {
                        assert(ids@.take(ids@.len() as int) =~= ids@);
                    }
                } else {
                    let mut i: usize = 0;
                    while i < ids.len()
                        invariant
                            0 <= i <= ids@.len(),
                            work@ =~= ids@.take(i as int),
                        decreases ids@.len() - i,
                    {
                        work.push(ids[i]);
                        i = i + 1;
                    }
                    proof {
                        assert(ids@.take(ids@.len() as int) =~= ids@);
                    }
                }
                let ghost target = work@;
                match bpe_decode(&t.bpe, work.as_slice()) {
                    Result::Ok(s) => {
                        proof {
                            assert(direct_decode(table, target) is Some);
                        }
                        Result::Ok(s)
                    },
                    Result::Err(_) => {
                        proof {
                            if target.len() == 0 {
                                assert(target =~= Seq::<u32>::empty());
                                assert(token_bytes(table, target) =~= Seq::<u8>::empty());
                                assert(valid_utf8(Seq::<u8>::empty()));
                                assert(false);
                            }
                        }
                        let (prefix_text, l) = repair_prefix(&t.bpe, &work);
                        let lost = work.len() - l;
                        let mut out = prefix_text;
                        let ghost base = out@;
                        let mut n: usize = 0;
                        proof {
                            assert(base + replacement_run(0) =~= base);
                        }
                        while n < lost
                            invariant
                                0 <= n <= lost,
                                out@ == base + replacement_run(n as nat),
                            decreases lost - n,
                        {
                            push_replacement(&mut out);
                            proof {
                                assert(replacement_run((n + 1) as nat) =~= replacement_run(
                                    n as nat,
                                ).push('\u{FFFD}'));
                                assert(base + replacement_run((n + 1) as nat) =~= (base
                                    + replacement_run(n as nat)).push('\u{FFFD}'));
                            }
                            n = n + 1;
                        }
                        Result::Ok(out)
                    },
                }
            },
        }
    }

    /// Encode text to ids. The raw-BPE backend passes the full special-token
    /// set to the engine when `add_special_tokens` is set, and an empty set
    /// otherwise, so special-token text is then tokenized as ordinary text.
    /// It succeeds exactly when every byte of the text is a single-byte
    /// token, the pattern yields no zero-width match on any stretch the
    /// engine could scan (unless the empty byte string is itself a token),
    /// and the engine raises no pattern fault; otherwise it reports an
    /// `Encode` error. On success the ids resolve in the decode table, and
    /// when the pattern covers the whole text and no special tokens were
    /// allowed, decoding them yields the text back.
    #[verifier::loop_isolation(false)]
    #[verifier::rlimit(100)]
    pub fn encode(&self, text: &str, add_special_tokens: bool) -> (r: Result<
        Vec<u32>,
        TokenizerError,
    >)
        requires
            self.wf(),
        ensures
            self is Tiktoken ==> ({
                let t = self->Tiktoken_0;
                let allowed = if add_special_tokens {
                    string_set(t.special_tokens@)
                } else {
                    Set::<Seq<char>>::empty()
                };
                let allowed_texts = if add_special_tokens {
                    string_views(t.special_tokens@)
                } else {
                    Seq::<Seq<char>>::empty()
                };
                &&& (r is Ok <==> (bytes_covered(bpe_keys(t.bpe), text@) && pieces_safe_spec(
                    t,
                    text@,
                    allowed_texts,
                ) && bpe_encoding(t.bpe, text@, allowed) is Some))
                &&& (r is Ok ==> r->Ok_0@ == bpe_encoding(t.bpe, text@, allowed).unwrap())
                &&& (r is Ok ==> all_known(bpe_table(t.bpe), r->Ok_0@))
                &&& ((r is Ok && !add_special_tokens && bpe_covers(t.bpe, text@))
                    ==> decode_spec(bpe_table(t.bpe), r->Ok_0@) == text@)
            }),
            r is Err ==> r->Err_0 is Encode,
    {
        match self {
            UnifiedTokenizer::HuggingFace(tok) => match hf_encode(tok, text, add_special_tokens) {
                Result::Ok(enc) => Result::Ok(hf_encoding_ids(&enc)),
                Result::Err(m) => Result::Err(TokenizerError::Encode { message: m }),
            },
            UnifiedTokenizer::Tiktoken(t) => {
                let tb: &[u8] = text.as_bytes();
                let mut i: usize = 0;
                while i < tb.len()
                    invariant
                        0 <= i <= tb@.len(),
                        forall|j: int|
                            0 <= j < i ==> bpe_keys(t.bpe).contains(seq![#[trigger] tb@[j]]),
                    decreases tb@.len() - i,
                {
                    let b = tb[i];
                    if !t.byte_present[b as usize] {
                        proof {
                            assert(tb@[i as int] == encode_utf8(text@)[i as int]);
                            assert(!bytes_covered(bpe_keys(t.bpe), text@));
                        }
                        return Result::Err(
                            TokenizerError::Encode {
                                message: "the text holds a byte that is not in the vocabulary".to_owned(),
                            },
                        );
                    }
                    i = i + 1;
                }
                proof {
                    assert(tb@ == encode_utf8(text@));
                    assert(bytes_covered(bpe_keys(t.bpe), text@));
                }
                let empty_allowed: Vec<String> = Vec::new();
                let allowed_ref: &Vec<String> = if add_special_tokens {
                    &t.special_tokens
                } else {
                    &empty_allowed
                };
                proof {
                    if !add_special_tokens {
                        assert(string_set(empty_allowed@) =~= Set::<Seq<char>>::empty());
                        assert(string_views(empty_allowed@) =~= Seq::<Seq<char>>::empty());
                    }
                }
                let ghost allowed_texts = string_views(allowed_ref@);
                if !t.has_empty_token {
                    if !empty_piece_guard(t.pattern.as_str(), text, allowed_ref) {
                        proof {
                            assert(!pieces_safe_spec(*t, text@, allowed_texts));
                        }
                        return Result::Err(
                            TokenizerError::Encode {
                                message: "the pattern yields an empty piece on this text".to_owned(),
                            },
                        );
                    }
                    proof {
                        assert(pieces_safe_spec(*t, text@, allowed_texts));
                        assert forall|s: int, e: int|
                            #[trigger] guard_slice(
                                encode_utf8(text@),
                                string_views(allowed_ref@),
                                s,
                                e,
                            ) implies !bpe_empty_piece(
                            t.bpe,
                            encode_utf8(text@).subrange(s, e),
                        ) by {
                            assert(!pattern_empty_piece(
                                t.pattern@,
                                encode_utf8(text@).subrange(s, e),
                            ));
                        }
                    }
                }
                proof {
                    assert(pieces_safe_spec(*t, text@, allowed_texts));
                    if add_special_tokens {
                        assert(allowed_texts == string_views(t.special_tokens@));
                    } else {
                        assert(allowed_texts == Seq::<Seq<char>>::empty());
                    }
                }
                match bpe_encode(&t.bpe, text, allowed_ref) {
                    Result::Ok(ids) => {
                        proof {
                            if !add_special_tokens && bpe_covers(t.bpe, text@) {
                                crate::repair::lemma_round_trip(bpe_table(t.bpe), ids@, text@);
                            }
                        }
                        Result::Ok(ids)
                    },
                    Result::Err(m) => Result::Err(TokenizerError::Encode { message: m }),
                }
            },
        }
    }

    /// Encode with every detail the backend offers. The trained backend
    /// populates every optional sequence; the raw-BPE backend has no notion
    /// of token strings, type ids or offsets, so it returns the ids alone
    /// with every optional sequence absent — a deliberate asymmetry, not an
    /// omission.
    #[verifier::rlimit(100)]
    pub fn encode_with_details(&self, text: &str, add_special_tokens: bool) -> (r: Result<
        EncodingDetails,
        TokenizerError,
    >)
        requires
            self.wf(),
        ensures
            self is Tiktoken ==> ({
                let t = self->Tiktoken_0;
                let allowed = if add_special_tokens {
                    string_set(t.special_tokens@)
                } else {
                    Set::<Seq<char>>::empty()
                };
                let allowed_texts = if add_special_tokens {
                    string_views(t.special_tokens@)
                } else {
                    Seq::<Seq<char>>::empty()
                };
                &&& (r is Ok <==> (bytes_covered(bpe_keys(t.bpe), text@) && pieces_safe_spec(
                    t,
                    text@,
                    allowed_texts,
                ) && bpe_encoding(t.bpe, text@, allowed) is Some))
                &&& (r is Ok ==> ({
                    &&& r->Ok_0.ids@ == bpe_encoding(t.bpe, text@, allowed).unwrap()
                    &&& r->Ok_0.type_ids is None
                    &&& r->Ok_0.tokens is None
                    &&& r->Ok_0.special_tokens_mask is None
                    &&& r->Ok_0.attention_mask is None
                    &&& r->Ok_0.offsets is None
                }))
            }),
            self is HuggingFace ==> (r is Ok ==> ({
                &&& r->Ok_0.type_ids is Some
                &&& r->Ok_0.tokens is Some
                &&& r->Ok_0.special_tokens_mask is Some
                &&& r->Ok_0.attention_mask is Some
                &&& r->Ok_0.offsets is Some
                &&& r->Ok_0.type_ids.unwrap()@.len() == r->Ok_0.ids@.len()
                &&& r->Ok_0.tokens.unwrap()@.len() == r->Ok_0.ids@.len()
                &&& r->Ok_0.special_tokens_mask.unwrap()@.len() == r->Ok_0.ids@.len()
                &&& r->Ok_0.attention_mask.unwrap()@.len() == r->Ok_0.ids@.len()
                &&& r->Ok_0.offsets.unwrap()@.len() == r->Ok_0.ids@.len()
            })),
            r is Err ==> r->Err_0 is Encode,
    {
        match self {
            UnifiedTokenizer::HuggingFace(tok) => match hf_encode(tok, text, add_special_tokens) {
                Result::Ok(enc) => Result::Ok(
                    EncodingDetails {
                        ids: hf_encoding_ids(&enc),
                        type_ids: Option::Some(hf_encoding_type_ids(&enc)),
                        tokens: Option::Some(hf_encoding_tokens(&enc)),
                        special_tokens_mask: Option::Some(hf_encoding_special_tokens_mask(&enc)),
                        attention_mask: Option::Some(hf_encoding_attention_mask(&enc)),
                        offsets: Option::Some(hf_encoding_offsets(&enc)),
                    },
                ),
                Result::Err(m) => Result::Err(TokenizerError::Encode { message: m }),
            },
            UnifiedTokenizer::Tiktoken(_) => match self.encode(text, add_special_tokens) {
                Result::Ok(ids) => Result::Ok(
                    EncodingDetails {
                        ids,
                        type_ids: Option::None,
                        tokens: Option::None,
                        special_tokens_mask: Option::None,
                        attention_mask: Option::None,
                        offsets: Option::None,
                    },
                ),
                Result::Err(e) => Result::Err(e),
            },
        }
    }

    /// Build a trained tokenizer from its serialized descriptor bytes,
    /// honoring the construction options: it succeeds exactly when the
    /// descriptor deserializes, and returns the parsed tokenizer with its
    /// special-token-markup flag set from the options.
    pub fn from_bytes(bytes: &[u8], options: &tokenizers_options) -> (r: Result<
        UnifiedTokenizer,
        TokenizerError,
    >)
        ensures
            r is Ok <==> hf_parse_ok(bytes@),
            r is Ok ==> r->Ok_0 == UnifiedTokenizer::HuggingFace(
                hf_flag_set(hf_parsed(bytes@), options.encode_special_tokens),
            ),
            r is Ok ==> r->Ok_0.wf(),
            r is Err ==> r->Err_0 is Backend,
    {
        match hf_from_bytes(bytes) {
            Result::Ok(mut tok) => {
                hf_set_encode_special_tokens(&mut tok, options.encode_special_tokens);
                Result::Ok(UnifiedTokenizer::HuggingFace(tok))
            },
            Result::Err(m) => Result::Err(TokenizerError::Backend { message: m }),
        }
    }

    /// Build a trained tokenizer from its descriptor bytes and install
    /// truncation with the given length and direction flag. An unknown flag
    /// and a descriptor that does not deserialize are rejected, as is a
    /// maximum length smaller than what the post-processor adds to a single
    /// sequence (the backend's own truncation setter would underflow on it);
    /// on every other input the truncated tokenizer is returned.
    pub fn from_bytes_with_truncation(bytes: &[u8], max_len: usize, dir: u8) -> (r: Result<
        UnifiedTokenizer,
        TokenizerError,
    >)
        ensures
            r is Ok <==> (dir <= 1 && hf_parse_ok(bytes@) && max_len >= hf_added_tokens(
                hf_parsed(bytes@),
            )),
            r is Ok ==> r->Ok_0 == UnifiedTokenizer::HuggingFace(
                hf_truncated(hf_parsed(bytes@), max_len, dir == 0),
            ),
            r is Ok ==> r->Ok_0.wf(),
            r is Err ==> r->Err_0 is Backend,
    {
        let side = match TruncationDirection::from_u8(dir) {
            Option::Some(s) => s,
            Option::None => {
                return Result::Err(
                    TokenizerError::Backend {
                        message: "invalid truncation direction".to_owned(),
                    },
                );
            },
        };
        match hf_from_bytes(bytes) {
            Result::Ok(mut tok) => {
                if max_len < hf_added_token_count(&tok) {
                    return Result::Err(
                        TokenizerError::Backend {
                            message: "the maximum length is smaller than the post-processor's added tokens".to_owned(),
                        },
                    );
                }
                match hf_with_truncation(&mut tok, max_len, side) {
                    Result::Ok(_) => Result::Ok(UnifiedTokenizer::HuggingFace(tok)),
                    Result::Err(m) => Result::Err(TokenizerError::Backend { message: m }),
                }
            },
            Result::Err(m) => Result::Err(TokenizerError::Backend { message: m }),
        }
    }
}

/// The special pairs deduplicated by token text over the first `n` config
/// entries, the last entry for a text winning, in first-appearance order.
pub open spec fn dedup_specials(contents: Seq<Seq<char>>, ids: Seq<u32>, n: nat) -> Seq<
    (Seq<char>, u32),
>
    decreases n,
{
    if n == 0 {
        seq![]
    } else {
        crate::model::upsert(
            dedup_specials(contents, ids, (n - 1) as nat),
            contents[n as int - 1],
            ids[n as int - 1],
        )
    }
}

/// The index of the first empty token text among the config entries, from
/// position `i` on.
pub open spec fn first_empty_content(contents: Seq<Seq<char>>, i: nat) -> Option<nat>
    decreases contents.len() - i,
{
    if i >= contents.len() {
        Option::None
    } else if contents[i as int].len() == 0 {
        Option::Some(i)
    } else {
        first_empty_content(contents, i + 1)
    }
}

/// Every text of the deduplicated special pairs is one of the config texts.
proof fn lemma_dedup_keys(contents: Seq<Seq<char>>, ids: Seq<u32>, n: nat)
    requires
        n <= contents.len(),
    ensures
        forall|k: Seq<char>|
            #[trigger] crate::model::has_key(dedup_specials(contents, ids, n), k) ==> (exists|
                j: int,
            |
                0 <= j < n && contents[j] == k),
    decreases n,
{
    if n > 0 {
        lemma_dedup_keys(contents, ids, (n - 1) as nat);
        crate::model::lemma_upsert_has_key(
            dedup_specials(contents, ids, (n - 1) as nat),
            contents[n as int - 1],
            ids[n as int - 1],
        );
        assert forall|k: Seq<char>|
            #[trigger] crate::model::has_key(dedup_specials(contents, ids, n), k) implies (exists|
            j: int,
        |
            0 <= j < n && contents[j] == k) by {
            if k == contents[n as int - 1] {
                assert(contents[n as int - 1] == k);
            } else {
                assert(crate::model::has_key(dedup_specials(contents, ids, (n - 1) as nat), k));
            }
        }
    }
}

/// Insert `key -> id`, updating the pair that already carries the text.
#[verifier::loop_isolation(false)]
fn upsert_special(pairs: &mut Vec<(String, u32)>, key: String, id: u32)
    ensures
        special_views(final(pairs)@) == crate::model::upsert(
            special_views(old(pairs)@),
            key@,
            id,
        ),
{
    let ghost pre = special_views(pairs@);
    let mut i: usize = 0;
    while i < pairs.len()
        invariant
            0 <= i <= pairs@.len(),
            pre == special_views(pairs@),
            forall|j: int| 0 <= j < i ==> (#[trigger] pre[j]).0 != key@,
        decreases pairs@.len() - i,
    {
        proof {
            assert(pre[i as int].0 == pairs@[i as int].0@);
        }
        if pairs[i].0 == key {
            pairs.set(i, (key, id));
            proof {
                crate::model::lemma_upsert_at(pre, key@, id, i as int);
                assert(special_views(pairs@) =~= pre.update(i as int, (key@, id)));
            }
            return ;
        }
        i = i + 1;
    }
    pairs.push((key, id));
    proof {
        crate::model::lemma_upsert_append(pre, key@, id);
        assert(special_views(pairs@) =~= pre.push((key@, id)));
    }
}

/// The first special id that repeats among the deduplicated pairs.
#[verifier::loop_isolation(false)]
fn find_dup_special_id(pairs: &Vec<(String, u32)>) -> (r: Option<u32>)
    ensures
        r == first_dup_from(special_views(pairs@), 0),
{
    let ghost sv = special_views(pairs@);
    let mut i: usize = 0;
    while i < pairs.len()
        invariant
            0 <= i <= pairs@.len(),
            sv == special_views(pairs@),
            first_dup_from(sv, 0) == first_dup_from(sv, i as nat),
            forall|i1: int, j1: int|
                0 <= i1 < j1 < i ==> (#[trigger] sv[i1]).1 != (#[trigger] sv[j1]).1,
        decreases pairs@.len() - i,
    {
        let id = pairs[i].1;
        proof {
            assert(sv[i as int].1 == id);
        }
        let mut j: usize = 0;
        while j < i
            invariant
                0 <= j <= i < pairs@.len(),
                sv == special_views(pairs@),
                sv[i as int].1 == id,
                forall|q: int| 0 <= q < j ==> (#[trigger] sv[q]).1 != id,
            decreases i - j,
        {
            if pairs[j].1 == id {
                proof {
                    assert(sv[j as int].1 == id);
                    assert(first_dup_from(sv, i as nat) == Option::Some(id));
                }
                return Option::Some(id);
            }
            j = j + 1;
        }
        proof {
            assert(!(exists|q: int| 0 <= q < i && (#[trigger] sv[q]).1 == sv[i as int].1));
            assert(first_dup_from(sv, i as nat) == first_dup_from(sv, (i + 1) as nat));
        }
        i = i + 1;
    }
    Option::None
}

/// Build the raw-BPE backend from the model-file text, the config's
/// `added_tokens_decoder` entries, and the caller's tokenization-boundary
/// pattern. The vocabulary is loaded and densified, the special pairs are
/// deduplicated by text (an empty text and a repeated id across distinct
/// texts are rejected — inputs on which the engine would not return or
/// would build an ambiguous decoder), and the tiktoken engine is
/// constructed, failing exactly when the pattern or the special
/// alternation does not compile. The pattern text is kept with the
/// backend, so each encode call can rule out zero-width pattern matches.
#[verifier::loop_isolation(false)]
#[verifier::rlimit(100)]
pub fn create_tiktoken_encoder(
    model_text: &[u8],
    entries: &Vec<(String, AddedToken)>,
    pattern: &str,
) -> (r: Result<TiktokenBackend, TokenizerError>)
    ensures
        ({
            let pairs_r = model_pairs_spec(model_text@);
            let ids_r = entry_ids_spec(entry_keys(entries@));
            match r {
                Result::Ok(t) => {
                    &&& t.wf()
                    &&& pairs_r is Ok
                    &&& ids_r is Ok
                    &&& ({
                        let pairs = pairs_r->Ok_0;
                        let ids = ids_r->Ok_0;
                        let dense = with_backfill(pairs, max_rank_of(pairs) as nat);
                        let specials = dedup_specials(
                            entry_contents(entries@),
                            ids,
                            entries@.len(),
                        );
                        &&& t.vocab_size == vocab_size_max(pairs, ids) + 1
                        &&& t.special_token_ids@ == ids
                        &&& string_views(t.special_tokens@) == entry_contents(entries@)
                        &&& bpe_keys(t.bpe) == pairs_key_set(dense)
                        &&& bpe_specials(t.bpe) == specials_map(specials)
                        &&& bpe_table(t.bpe) == decode_table_of(dense, specials)
                        &&& first_empty_content(entry_contents(entries@), 0) is None
                        &&& first_dup_from(specials, 0) is None
                        &&& bpe_construction_ok(pattern@, specials)
                        &&& t.pattern@ == pattern@
                        &&& t.has_empty_token == pairs_key_set(dense).contains(
                            Seq::<u8>::empty(),
                        )
                    })
                },
                Result::Err(e) => match e {
                    TokenizerError::Format { line, kind } => pairs_r == Result::<
                        Seq<(Seq<u8>, u32)>,
                        (nat, crate::errors::LineErrorKind),
                    >::Err((line as nat, kind)),
                    TokenizerError::BadSpecialId { key } => pairs_r is Ok && ids_r == Result::<
                        Seq<u32>,
                        Seq<char>,
                    >::Err(key@),
                    TokenizerError::RankOverflow => pairs_r is Ok && ids_r is Ok
                        && vocab_size_max(pairs_r->Ok_0, ids_r->Ok_0) == u32::MAX,
                    TokenizerError::DuplicateRank { rank } => pairs_r is Ok && ids_r is Ok
                        && vocab_size_max(pairs_r->Ok_0, ids_r->Ok_0) < u32::MAX
                        && first_dup_from(pairs_r->Ok_0, 0) == Option::Some(rank),
                    TokenizerError::EmptySpecialToken { key } => pairs_r is Ok && ids_r is Ok
                        && first_empty_content(entry_contents(entries@), 0) is Some && key@
                        == entry_keys(entries@)[first_empty_content(
                        entry_contents(entries@),
                        0,
                    ).unwrap() as int],
                    TokenizerError::DuplicateSpecialId { id } => pairs_r is Ok && ids_r is Ok
                        && first_empty_content(entry_contents(entries@), 0) is None
                        && first_dup_from(
                        dedup_specials(entry_contents(entries@), ids_r->Ok_0, entries@.len()),
                        0,
                    ) == Option::Some(id),
                    TokenizerError::Backend { message } => pairs_r is Ok && ids_r is Ok
                        && !bpe_construction_ok(
                        pattern@,
                        dedup_specials(entry_contents(entries@), ids_r->Ok_0, entries@.len()),
                    ),
                    _ => false,
                },
            }
        }),
{
    let vocab = match load_vocabulary(model_text, entries) {
        Result::Ok(v) => v,
        Result::Err(e) => {
            return Result::Err(e);
        },
    };
    let ghost pairs = model_pairs_spec(model_text@)->Ok_0;
    let ghost ids_g = entry_ids_spec(entry_keys(entries@))->Ok_0;
    let ghost dense = with_backfill(pairs, max_rank_of(pairs) as nat);
    let ghost contents_g = entry_contents(entries@);
    proof {
        lemma_entry_ids_len(entry_keys(entries@), Seq::<u32>::empty());
        assert(entry_keys(entries@).len() == entries@.len());
        assert(contents_g.len() == entries@.len());
        assert(vocab.special_token_ids@.len() == entries@.len());
        assert(vocab.special_tokens@.len() == entries@.len()) by {
            assert(string_views(vocab.special_tokens@).len() == contents_g.len());
        }
    }

    // An empty special-token text is rejected: the engine's special scan
    // would match it without advancing.
    let mut q: usize = 0;
    while q < vocab.special_tokens.len()
        invariant
            0 <= q <= entries@.len(),
            first_empty_content(contents_g, 0) == first_empty_content(contents_g, q as nat),
            forall|j: int| 0 <= j < q ==> (#[trigger] contents_g[j]).len() > 0,
        decreases entries@.len() - q,
    {
        proof {
            assert(string_views(vocab.special_tokens@)[q as int] == vocab.special_tokens@[q as int]@);
            assert(contents_g[q as int] == vocab.special_tokens@[q as int]@);
        }
        if vocab.special_tokens[q].as_str().is_empty() {
            proof {
                assert(first_empty_content(contents_g, q as nat) == Option::Some(q as nat));
                assert(entry_keys(entries@)[q as int] == entries@[q as int].0@);
            }
            return Result::Err(TokenizerError::EmptySpecialToken { key: entries[q].0.clone() });
        }
        q = q + 1;
    }
    proof {
        assert(first_empty_content(contents_g, entries@.len()) is None);
    }

    // Deduplicate the special pairs by token text, the later entry winning.
    let mut spairs: Vec<(String, u32)> = Vec::new();
    let mut i: usize = 0;
    proof {
        assert(special_views(spairs@) =~= dedup_specials(contents_g, ids_g, 0));
        assert(crate::model::keys_unique(special_views(spairs@)));
    }
    while i < vocab.special_tokens.len()
        invariant
            0 <= i <= entries@.len(),
            special_views(spairs@) == dedup_specials(contents_g, ids_g, i as nat),
            crate::model::keys_unique(special_views(spairs@)),
        decreases entries@.len() - i,
    {
        proof {
            assert(string_views(vocab.special_tokens@)[i as int] == vocab.special_tokens@[i as int]@);
            assert(contents_g[i as int] == vocab.special_tokens@[i as int]@);
            crate::model::lemma_upsert_keys_unique(
                special_views(spairs@),
                contents_g[i as int],
                ids_g[i as int],
            );
        }
        upsert_special(&mut spairs, vocab.special_tokens[i].clone(), vocab.special_token_ids[i]);
        i = i + 1;
    }
    let ghost specials_g = dedup_specials(contents_g, ids_g, entries@.len());

    // Distinct texts are guaranteed; a repeated id across them is rejected.
    match find_dup_special_id(&spairs) {
        Option::Some(id) => {
            return Result::Err(TokenizerError::DuplicateSpecialId { id });
        },
        Option::None => {},
    }
    proof {
        lemma_no_dup_distinct(special_views(spairs@), 0nat);
    }

    // Which single bytes are ordinary tokens, and whether the empty byte
    // string is one.
    let mut byte_present: Vec<bool> = vec![false; 256];
    let mut has_empty_token = false;
    let mut p: usize = 0;
    while p < vocab.encoder.len()
        invariant
            0 <= p <= vocab.encoder@.len(),
            byte_present@.len() == 256,
            forall|b: u8|
                (#[trigger] byte_present@[b as int]) == (exists|j: int|
                    0 <= j < p && (#[trigger] pair_views(vocab.encoder@)[j]).0 == seq![b]),
            has_empty_token == (exists|j: int|
                0 <= j < p && (#[trigger] pair_views(vocab.encoder@)[j]).0 == Seq::<u8>::empty()),
        decreases vocab.encoder@.len() - p,
    {
        let ghost pv = pair_views(vocab.encoder@);
        let key_len = vocab.encoder[p].0.len();
        if key_len == 1 {
            let b0 = vocab.encoder[p].0[0];
            byte_present.set(b0 as usize, true);
            proof {
                assert(pv[p as int].0 =~= seq![b0]);
                assert forall|b: u8| (#[trigger] byte_present@[b as int]) == (exists|j: int|
                    0 <= j < p + 1 && (#[trigger] pv[j]).0 == seq![b]) by {
                    if b == b0 {
                        assert(pv[p as int].0 == seq![b]);
                    } else {
                        assert(pv[p as int].0 != seq![b]) by {
                            assert(pv[p as int].0 == seq![b0]);
                            assert(seq![b0][0] == b0 && seq![b][0] == b);
                        }
                    }
                }
                assert(pv[p as int].0.len() == 1);
            }
        } else if key_len == 0 {
            has_empty_token = true;
            proof {
                assert(pv[p as int].0 =~= Seq::<u8>::empty());
                assert forall|b: u8| (#[trigger] byte_present@[b as int]) == (exists|j: int|
                    0 <= j < p + 1 && (#[trigger] pv[j]).0 == seq![b]) by {
                    assert(pv[p as int].0.len() == 0);
                    assert(seq![b].len() == 1);
                }
            }
        } else {
            proof {
                assert forall|b: u8| (#[trigger] byte_present@[b as int]) == (exists|j: int|
                    0 <= j < p + 1 && (#[trigger] pair_views(vocab.encoder@)[j]).0 == seq![b]) by {
                    assert(pair_views(vocab.encoder@)[p as int].0.len() == key_len);
                    assert(seq![b].len() == 1);
                }
                assert(pair_views(vocab.encoder@)[p as int].0.len() == key_len);
            }
        }
        p = p + 1;
    }


    proof {
        lemma_backfill(pairs, max_rank_of(pairs) as nat);
        assert(ranks_distinct(pair_views(vocab.encoder@)));
        assert forall|a: int, b2: int| 0 <= a < b2 < spairs@.len() implies (
        #[trigger] spairs@[a]).0@ != (#[trigger] spairs@[b2]).0@ by {
            assert(special_views(spairs@)[a].0 == spairs@[a].0@);
            assert(special_views(spairs@)[b2].0 == spairs@[b2].0@);
        }
        assert forall|a: int, b2: int| 0 <= a < b2 < spairs@.len() implies (
        #[trigger] spairs@[a]).1 != (#[trigger] spairs@[b2]).1 by {
            assert(special_views(spairs@)[a].1 == spairs@[a].1);
            assert(special_views(spairs@)[b2].1 == spairs@[b2].1);
            assert(ranks_distinct(special_views(spairs@)));
        }
    }
    let bpe = match bpe_new(&vocab.encoder, &spairs, pattern) {
        Result::Ok(b) => b,
        Result::Err(m) => {
            return Result::Err(TokenizerError::Backend { message: m });
        },
    };
    proof {
        assert(specials_g == special_views(spairs@));
        assert forall|b: u8| (#[trigger] byte_present@[b as int]) == bpe_keys(bpe).contains(
            seq![b],
        ) by {
            assert(bpe_keys(bpe) == pairs_key_set(dense));
            assert(pairs_key_set(dense).contains(seq![b]) == (exists|j: int|
                0 <= j < dense.len() && (#[trigger] dense[j]).0 == seq![b]));
        }
        assert(has_empty_token == bpe_keys(bpe).contains(Seq::<u8>::empty())) by {
            assert(pairs_key_set(dense).contains(Seq::<u8>::empty()) == (exists|j: int|
                0 <= j < dense.len() && (#[trigger] dense[j]).0 == Seq::<u8>::empty()));
        }
        assert(!bpe_specials(bpe).contains_key(Seq::<char>::empty())) by {
            lemma_specials_map_dom(specials_g);
            if specials_map(specials_g).contains_key(Seq::<char>::empty()) {
                let i = choose|i: int|
                    0 <= i < specials_g.len() && (#[trigger] specials_g[i]).0
                        == Seq::<char>::empty();
                assert(crate::model::has_key(specials_g, Seq::<char>::empty()));
                lemma_dedup_keys(contents_g, ids_g, entries@.len());
                let j = choose|j: int|
                    0 <= j < entries@.len() && contents_g[j] == Seq::<char>::empty();
                assert(contents_g[j].len() > 0);
            }
        }
    }
    let backend = TiktokenBackend {
        bpe,
        vocab_size: vocab.vocab_size,
        special_tokens: vocab.special_tokens,
        special_token_ids: vocab.special_token_ids,
        byte_present,
        pattern: pattern.to_owned(),
        has_empty_token,
    };
    proof {
        assert forall|i: int| 0 <= i < backend.special_tokens@.len() implies (
        #[trigger] backend.special_tokens@[i])@.len() > 0 by {
            assert(string_views(backend.special_tokens@)[i] == backend.special_tokens@[i]@);
            assert(contents_g[i].len() > 0);
        }
        assert(backend.wf());
    }
    Result::Ok(backend)
}

/// A nonempty character sequence has nonempty UTF-8 bytes.
proof fn lemma_encode_utf8_nonempty(cs: Seq<char>)
    requires
        cs.len() > 0,
    ensures
        encode_utf8(cs).len() > 0,
{
    assert(vstd::utf8::encode_scalar(cs[0] as u32).len() >= 1);
}

/// The candidate list holds this position.
spec fn contains_int(ps: Seq<usize>, v: int) -> bool {
    exists|q: int| 0 <= q < ps.len() && #[trigger] ps[q] == v
}

/// The pair of cut points is clean: where it bounds a well-formed slice,
/// the pattern yields no zero-width match on it.
spec fn pair_clean(pattern: Seq<char>, text: Seq<u8>, s: int, e: int) -> bool {
    (s <= e && vstd::utf8::is_char_boundary(text, s) && vstd::utf8::is_char_boundary(text, e))
        ==> !pattern_empty_piece(pattern, text.subrange(s, e))
}

/// Whether `w` occurs in `text` at byte position `i`.
#[verifier::loop_isolation(false)]
fn occurs_at_exec(text: &[u8], i: usize, w: &[u8]) -> (r: bool)
    requires
        i + w@.len() <= text@.len(),
    ensures
        r == occurs_at(text@, w@, i as int),
{
    let tl: usize = text.len();
    let mut j: usize = 0;
    while j < w.len()
        invariant
            0 <= j <= w@.len(),
            i + w@.len() <= text@.len(),
            tl == text@.len(),
            forall|q: int| 0 <= q < j ==> text@[i + q] == #[trigger] w@[q],
        decreases w@.len() - j,
    {
        if text[i + j] != w[j] {
            proof {
                assert(text@.subrange(i as int, i + w@.len())[j as int] == text@[i + j]);
            }
            return false;
        }
        j = j + 1;
    }
    proof {
        assert(text@.subrange(i as int, i + w@.len()) =~= w@);
    }
    true
}

/// Whether every stretch of the text that the engine's special splitting
/// could scan — between character-boundary cut points adjacent to
/// occurrences of the allowed special texts — is free of zero-width
/// pattern matches.
#[verifier::loop_isolation(false)]
#[verifier::rlimit(100)]
fn empty_piece_guard(pattern: &str, text: &str, allowed: &Vec<String>) -> (r: bool)
    requires
        forall|i: int| 0 <= i < allowed@.len() ==> (#[trigger] allowed@[i])@.len() > 0,
    ensures
        r == (forall|s: int, e: int|
            #[trigger] guard_slice(encode_utf8(text@), string_views(allowed@), s, e)
                ==> !pattern_empty_piece(pattern@, encode_utf8(text@).subrange(s, e))),
{
    let tb: &[u8] = text.as_bytes();
    let n: usize = tb.len();
    let ghost tbv = encode_utf8(text@);
    let ghost av = string_views(allowed@);
    proof {
        assert(tb@ == tbv);
    }

    // Collect every cut point the engine's special splitting could produce.
    let mut pos: Vec<usize> = Vec::new();
    pos.push(0);
    pos.push(n);
    proof {
        assert(boundary_pos(tbv, av, 0));
        assert(boundary_pos(tbv, av, n as int));
        assert(pos@[0] == 0 && pos@[1] == n);
    }
    let mut k: usize = 0;
    while k < allowed.len()
        invariant
            0 <= k <= allowed@.len(),
            forall|q: int|
                0 <= q < pos@.len() ==> (#[trigger] pos@[q]) <= n && boundary_pos(
                    tbv,
                    av,
                    pos@[q] as int,
                ),
            contains_int(pos@, 0),
            contains_int(pos@, n as int),
            forall|k2: int, i2: int|
                0 <= k2 < k && #[trigger] occurs_at(tbv, encode_utf8(av[k2]), i2) ==> contains_int(
                    pos@,
                    i2,
                ) && contains_int(pos@, i2 + encode_utf8(av[k2]).len()),
        decreases allowed@.len() - k,
    {
        let wb: &[u8] = allowed[k].as_str().as_bytes();
        proof {
            assert(av[k as int] == allowed@[k as int]@);
            assert(wb@ == encode_utf8(av[k as int]));
        }
        if wb.len() >= 1 && wb.len() <= n {
            let mut i: usize = 0;
            while i <= n - wb.len()
                invariant
                    1 <= wb@.len() <= n,
                    wb@ == encode_utf8(av[k as int]),
                    0 <= i <= n - wb@.len() + 1,
                    forall|q: int|
                        0 <= q < pos@.len() ==> (#[trigger] pos@[q]) <= n && boundary_pos(
                            tbv,
                            av,
                            pos@[q] as int,
                        ),
                    contains_int(pos@, 0),
                    contains_int(pos@, n as int),
                    forall|k2: int, i2: int|
                        0 <= k2 < k && #[trigger] occurs_at(tbv, encode_utf8(av[k2]), i2)
                            ==> contains_int(pos@, i2) && contains_int(
                            pos@,
                            i2 + encode_utf8(av[k2]).len(),
                        ),
                    forall|i2: int|
                        0 <= i2 < i && #[trigger] occurs_at(tbv, wb@, i2) ==> contains_int(
                            pos@,
                            i2,
                        ) && contains_int(pos@, i2 + wb@.len()),
                decreases n - wb@.len() - i + 1,
            {
                let ghost pre = pos@;
                if occurs_at_exec(tb, i, wb) {
                    pos.push(i);
                    pos.push(i + wb.len());
                    proof {
                        assert(occurs_at(tbv, encode_utf8(av[k as int]), i as int));
                        assert(boundary_pos(tbv, av, i as int));
                        assert(boundary_pos(tbv, av, i + wb@.len()));
                        assert(forall|q: int| 0 <= q < pre.len() ==> pos@[q] == pre[q]);
                        assert(pos@[pre.len() as int] == i && pos@[pre.len() as int + 1] == i
                            + wb@.len());
                        assert forall|v: int| contains_int(pre, v) implies contains_int(
                            pos@,
                            v,
                        ) by {
                            let q = choose|q: int| 0 <= q < pre.len() && #[trigger] pre[q] == v;
                            assert(pos@[q] == v);
                        }
                        assert(contains_int(pos@, i as int));
                        assert(contains_int(pos@, i + wb@.len()));
                    }
                }
                i = i + 1;
            }
            proof {
                assert forall|i2: int| #[trigger] occurs_at(tbv, wb@, i2) implies contains_int(
                    pos@,
                    i2,
                ) && contains_int(pos@, i2 + wb@.len()) by {
                    assert(i2 + wb@.len() <= n);
                    assert(i2 < i);
                }
            }
        } else {
            proof {
                lemma_encode_utf8_nonempty(av[k as int]);
                assert(wb@.len() > n);
                assert forall|i2: int| !(#[trigger] occurs_at(tbv, wb@, i2)) by {
                    assert(wb@.len() > tbv.len());
                }
            }
        }
        proof {
            assert forall|i2: int| #[trigger] occurs_at(tbv, encode_utf8(av[k as int]), i2)
                implies contains_int(pos@, i2) && contains_int(
                pos@,
                i2 + encode_utf8(av[k as int]).len(),
            ) by {
                assert(occurs_at(tbv, wb@, i2));
            }
        }
        k = k + 1;
    }
    proof {
        assert forall|p: int| boundary_pos(tbv, av, p) implies contains_int(pos@, p) by {
            if p == 0 {
            } else if p == tbv.len() {
                assert(tbv.len() == n);
            } else {
                let (k2, i2) = choose|k2: int, i2: int|
                    0 <= k2 < av.len() && #[trigger] occurs_at(tbv, encode_utf8(av[k2]), i2) && (p
                        == i2 || p == i2 + encode_utf8(av[k2]).len());
                assert(contains_int(pos@, i2) && contains_int(
                    pos@,
                    i2 + encode_utf8(av[k2]).len(),
                ));
            }
        }
    }

    // Every candidate pair of cut points must be clean.
    let mut a: usize = 0;
    while a < pos.len()
        invariant
            0 <= a <= pos@.len(),
            forall|x: int, y: int|
                0 <= x < a && 0 <= y < pos@.len() ==> #[trigger] pair_clean(
                    pattern@,
                    tbv,
                    pos@[x] as int,
                    pos@[y] as int,
                ),
        decreases pos@.len() - a,
    {
        let s = pos[a];
        let mut b2: usize = 0;
        while b2 < pos.len()
            invariant
                0 <= b2 <= pos@.len(),
                0 <= a < pos@.len(),
                s == pos@[a as int],
                forall|y: int|
                    0 <= y < b2 ==> #[trigger] pair_clean(
                        pattern@,
                        tbv,
                        pos@[a as int] as int,
                        pos@[y] as int,
                    ),
            decreases pos@.len() - b2,
        {
            let e = pos[b2];
            if s <= e {
                if text.is_char_boundary(s) && text.is_char_boundary(e) {
                    if pattern_empty_piece_on(pattern, text, s, e) {
                        proof {
                            assert(guard_slice(tbv, av, s as int, e as int));
                        }
                        return false;
                    }
                }
            }
            proof {
                assert(pair_clean(pattern@, tbv, pos@[a as int] as int, pos@[b2 as int] as int));
            }
            b2 = b2 + 1;
        }
        a = a + 1;
    }
    proof {
        assert forall|s: int, e: int| #[trigger] guard_slice(tbv, av, s, e)
            implies !pattern_empty_piece(pattern@, tbv.subrange(s, e)) by {
            assert(contains_int(pos@, s));
            assert(contains_int(pos@, e));
            let x = choose|x: int| 0 <= x < pos@.len() && #[trigger] pos@[x] == s;
            let y = choose|y: int| 0 <= y < pos@.len() && #[trigger] pos@[y] == e;
            assert(pair_clean(pattern@, tbv, pos@[x] as int, pos@[y] as int));
        }
    }
    true
}

/// Whether the id occurs in the list.
fn contains_id(v: &Vec<u32>, x: u32) -> (r: bool)
    ensures
        r == v@.contains(x),
{
    let mut i: usize = 0;
    while i < v.len()
        invariant
            0 <= i <= v@.len(),
            forall|j: int| 0 <= j < i ==> v@[j] != x,
        decreases v@.len() - i,
    {
        if v[i] == x {
            return true;
        }
        i = i + 1;
    }
    false
}

/// Relies on `String::push`: appends one replacement character.
#[verifier::external_body]
fn push_replacement(s: &mut String)
    ensures
        final(s)@ == old(s)@.push('\u{FFFD}'),
{
    s.push('\u{FFFD}');
}

/// The longest decodable proper prefix of ids whose direct decode failed:
/// its text and its length.
#[verifier::loop_isolation(false)]
fn repair_prefix(b: &tiktoken_rs::CoreBPE, work: &Vec<u32>) -> (r: (String, usize))
    requires
        work@.len() > 0,
        direct_decode(bpe_table(*b), work@) is None,
    ensures
        r.1 == best_prefix_len(bpe_table(*b), work@, (work@.len() - 1) as nat),
        r.1 < work@.len(),
        direct_decode(bpe_table(*b), work@.take(r.1 as int)) is Some,
        r.0@ == direct_decode(bpe_table(*b), work@.take(r.1 as int)).unwrap(),
{
    let ghost table = bpe_table(*b);
    let mut l: usize = work.len() - 1;
    proof {
        assert(work@.take(work@.len() as int) =~= work@);
    }
    while l > 0
        invariant
            0 <= l <= work@.len() - 1,
            forall|m: int| l < m <= work@.len() ==> direct_decode(table, work@.take(m)) is None,
        decreases l,
    {
        let mut prefix: Vec<u32> = Vec::new();
        let mut j: usize = 0;
        while j < l
            invariant
                0 <= j <= l <= work@.len(),
                prefix@ =~= work@.take(l as int).take(j as int),
            decreases l - j,
        {
            prefix.push(work[j]);
            j = j + 1;
        }
        proof {
            assert(work@.take(l as int).take(l as int) =~= work@.take(l as int));
        }
        match bpe_decode(b, prefix.as_slice()) {
            Result::Ok(s) => {
                proof {
                    assert(direct_decode(table, work@.take(l as int)) is Some);
                    lemma_best_prefix_value(table, work@, (work@.len() - 1) as nat, l as nat);
                }
                return (s, l);
            },
            Result::Err(_) => {
                l = l - 1;
            },
        }
    }
    proof {
        assert(work@.take(0) =~= Seq::<u32>::empty());
        assert(token_bytes(table, Seq::<u32>::empty()) =~= Seq::<u8>::empty());
        assert(valid_utf8(Seq::<u8>::empty()));
        assert(direct_decode(table, work@.take(0)) is Some);
        lemma_best_prefix_value(table, work@, (work@.len() - 1) as nat, 0nat);
        assert(vstd::utf8::decode_utf8(Seq::<u8>::empty()) =~= Seq::<char>::empty());
    }
    (String::new(), 0)
}

} // verus!
