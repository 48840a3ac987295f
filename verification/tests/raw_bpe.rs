//! Tests of the raw-BPE backend behind the unified tokenizer: encoding
//! against a loaded vocabulary, total decoding with repair, special-token
//! filtering, and the documented no-op of the trained-only toggle.

use base64::Engine;
use unitok::errors::TokenizerError;
use unitok::tokenizer::{create_tiktoken_encoder, UnifiedTokenizer};
use unitok::vocab::AddedToken;

/// The tokenization-boundary pattern the Kimi-style tests use.
const PATTERN_KIMI: &str = r"[\p{Han}]+|[^\r\n\p{L}\p{N}]?[\p{Lu}\p{Lt}\p{Lm}\p{Lo}\p{M}&&[^\p{Han}]]*[\p{Ll}\p{Lm}\p{Lo}\p{M}&&[^\p{Han}]]+(?i:'s|'t|'re|'ve|'m|'ll|'d)?|[^\r\n\p{L}\p{N}]?[\p{Lu}\p{Lt}\p{Lm}\p{Lo}\p{M}&&[^\p{Han}]]+[\p{Ll}\p{Lm}\p{Lo}\p{M}&&[^\p{Han}]]*(?i:'s|'t|'re|'ve|'m|'ll|'d)?|\p{N}{1,3}| ?[^\s\p{L}\p{N}]+[\r\n]*|\s*[\r\n]+|\s+(?!\S)|\s+";

/// A simple fallback pattern: runs of non-space or of whitespace.
const PATTERN_SIMPLE: &str = r"\S+|\s+";

fn b64(bytes: &[u8]) -> String {
    base64::engine::general_purpose::STANDARD.encode(bytes)
}

fn added(content: &str) -> AddedToken {
    AddedToken {
        content: content.to_string(),
        lstrip: false,
        normalized: false,
        rstrip: false,
        single_word: false,
        special: true,
    }
}

fn entry(key: &str, content: &str) -> (String, AddedToken) {
    (key.to_string(), added(content))
}

/// A model file that assigns the given tokens their ranks and gives every
/// single byte a token at ranks `base..base + 256`.
fn model_with_singles(tokens: &[(&[u8], u32)], base: u32) -> String {
    let mut text = String::new();
    for b in 0..=255u8 {
        text.push_str(&format!("{} {}\n", b64(&[b]), base + b as u32));
    }
    // Later lines win for a repeated token, so a single-byte token here
    // keeps its listed rank rather than the one from the block above.
    for (bytes, rank) in tokens {
        text.push_str(&format!("{} {}\n", b64(bytes), rank));
    }
    text
}

/// The Kimi-style fixture: each piece of the scenario text is a whole token
/// with its published id, single bytes cover the rest, and the two specials
/// sit at the top of the id space.
fn kimi_style_tokenizer() -> UnifiedTokenizer {
    let pieces: [(&[u8], u32); 9] = [
        ("Hello".as_bytes(), 19180),
        (",".as_bytes(), 11),
        (" world".as_bytes(), 2695),
        ("!".as_bytes(), 0),
        (" ".as_bytes(), 220),
        ("你好".as_bytes(), 33845),
        ("，".as_bytes(), 378),
        ("世界".as_bytes(), 2243),
        ("！".as_bytes(), 856),
    ];
    let text = model_with_singles(&pieces, 1000);
    let entries = vec![entry("163584", "[BOS]"), entry("163585", "[EOS]")];
    let backend = create_tiktoken_encoder(text.as_bytes(), &entries, PATTERN_KIMI).unwrap();
    UnifiedTokenizer::Tiktoken(backend)
}

/// A two-token vocabulary that splits the character `歪` (bytes E6 AD AA)
/// into a leading byte and the two continuation bytes.
fn split_char_tokenizer() -> UnifiedTokenizer {
    let text = format!("{} 0\n{} 1\n", b64(&[0xE6]), b64(&[0xAD, 0xAA]));
    let backend = create_tiktoken_encoder(text.as_bytes(), &Vec::new(), PATTERN_SIMPLE).unwrap();
    UnifiedTokenizer::Tiktoken(backend)
}

#[test]
fn kimi_scenario_encodes_to_published_ids() {
    let unified = kimi_style_tokenizer();
    let ids = unified.encode("Hello, world! 你好，世界！", false).unwrap();
    assert_eq!(ids, vec![19180, 11, 2695, 0, 220, 33845, 378, 2243, 856]);
    let decoded = unified
        .decode(&[19180, 11, 2695, 0, 220, 33845, 378, 2243, 856], false)
        .unwrap();
    assert_eq!(decoded, "Hello, world! 你好，世界！");
}

#[test]
fn kimi_scenario_vocab_size() {
    let unified = kimi_style_tokenizer();
    assert_eq!(unified.vocab_size(), 163586);
}

#[test]
fn round_trip_over_single_byte_tokens() {
    let text_model = model_with_singles(&[], 0);
    let entries = vec![entry("300", "[PAD]")];
    let backend = create_tiktoken_encoder(text_model.as_bytes(), &entries, PATTERN_SIMPLE).unwrap();
    let unified = UnifiedTokenizer::Tiktoken(backend);
    let text = "to be, or not to be";
    let ids = unified.encode(text, false).unwrap();
    assert!(!ids.is_empty());
    let decoded = unified.decode(&ids, false).unwrap();
    assert_eq!(decoded, text);
}

#[test]
fn partial_character_decodes_to_one_replacement() {
    let unified = split_char_tokenizer();
    assert_eq!(unified.decode(&[0], false).unwrap(), "\u{FFFD}");
}

#[test]
fn split_character_scenarios() {
    let unified = split_char_tokenizer();
    assert_eq!(unified.decode(&[0, 1], false).unwrap(), "歪");
    assert_eq!(unified.decode(&[0, 1, 0], false).unwrap(), "歪\u{FFFD}");
    assert_eq!(unified.decode(&[0, 1, 0, 1], false).unwrap(), "歪歪");
    assert_eq!(
        unified.decode(&[0, 1, 0, 0], false).unwrap(),
        "歪\u{FFFD}\u{FFFD}"
    );
}

#[test]
fn decode_never_fails_on_in_range_ids() {
    let unified = split_char_tokenizer();
    // Unknown, out-of-table and malformed sequences all still decode.
    for ids in [
        vec![],
        vec![0],
        vec![1],
        vec![1, 0],
        vec![0, 0, 0],
        vec![7, 8, 9],
        vec![0, 1, 7],
    ] {
        assert!(unified.decode(&ids, false).is_ok());
        assert!(unified.decode(&ids, true).is_ok());
    }
    assert_eq!(unified.decode(&[], false).unwrap(), "");
}

#[test]
fn decode_is_deterministic() {
    let unified = kimi_style_tokenizer();
    let ids = vec![19180, 11, 163584, 2695, 0];
    let first = unified.decode(&ids, true).unwrap();
    let second = unified.decode(&ids, true).unwrap();
    assert_eq!(first, second);
}

#[test]
fn skip_special_tokens_removes_their_content() {
    let unified = kimi_style_tokenizer();
    let ids = vec![163584, 19180, 11, 2695, 163585];
    let with_special = unified.decode(&ids, false).unwrap();
    assert!(with_special.contains("[BOS]"));
    assert!(with_special.contains("[EOS]"));
    let without = unified.decode(&ids, true).unwrap();
    assert!(!without.contains("[BOS]"));
    assert!(!without.contains("[EOS]"));
    assert_eq!(without, "Hello, world");
}

#[test]
fn config_specials_land_in_id_set_and_are_skipped() {
    let text = format!("{} 5\n", b64(b"Hello, world!"));
    let entries = vec![
        entry("128000", "<|begin_of_text|>"),
        entry("128001", "<|end_of_text|>"),
    ];
    let backend = create_tiktoken_encoder(text.as_bytes(), &entries, PATTERN_SIMPLE).unwrap();
    assert!(backend.special_token_ids.contains(&128000));
    assert!(backend.special_token_ids.contains(&128001));
    assert!(backend
        .special_tokens
        .iter()
        .any(|t| t == "<|begin_of_text|>"));
    let unified = UnifiedTokenizer::Tiktoken(backend);
    let skipped = unified.decode(&[128000, 5, 128001], true).unwrap();
    assert_eq!(skipped, "Hello, world!");
    assert!(!skipped.contains("<|begin_of_text|>"));
    assert!(!skipped.contains("<|end_of_text|>"));
    let kept = unified.decode(&[128000, 5, 128001], false).unwrap();
    assert_eq!(kept, "<|begin_of_text|>Hello, world!<|end_of_text|>");
}

#[test]
fn add_special_tokens_elevates_matches() {
    let unified = kimi_style_tokenizer();
    let ids = unified.encode("[BOS]Hello[EOS]", true).unwrap();
    assert!(ids.contains(&163584));
    assert!(ids.contains(&163585));
    let plain = unified.encode("[BOS]Hello[EOS]", false).unwrap();
    assert!(!plain.contains(&163584));
    assert!(!plain.contains(&163585));
    let round = unified.decode(&plain, false).unwrap();
    assert_eq!(round, "[BOS]Hello[EOS]");
}

#[test]
fn encode_with_details_reports_ids_alone() {
    let unified = kimi_style_tokenizer();
    let details = unified.encode_with_details("Hello", false).unwrap();
    assert_eq!(details.ids, unified.encode("Hello", false).unwrap());
    assert!(details.type_ids.is_none());
    assert!(details.tokens.is_none());
    assert!(details.special_tokens_mask.is_none());
    assert!(details.attention_mask.is_none());
    assert!(details.offsets.is_none());
}

#[test]
fn toggle_is_a_noop_for_raw_bpe() {
    let mut unified = kimi_style_tokenizer();
    assert!(!unified.supports_encode_special_tokens());
    let before = unified.encode("Hello, world!", false).unwrap();
    unified.set_encode_special_tokens(true);
    unified.set_encode_special_tokens(false);
    let after = unified.encode("Hello, world!", false).unwrap();
    assert_eq!(before, after);
    assert_eq!(unified.vocab_size(), 163586);
}

#[test]
fn backend_rejects_invalid_pattern() {
    let text = format!("{} 0\n", b64(b"ab"));
    let err = match create_tiktoken_encoder(text.as_bytes(), &Vec::new(), "(") {
        Err(e) => e,
        Ok(_) => panic!("expected an error"),
    };
    assert!(matches!(err, TokenizerError::Backend { .. }));
}

#[test]
fn duplicate_special_id_is_rejected() {
    let text = format!("{} 0\n", b64(b"ab"));
    let entries = vec![entry("7", "[A]"), entry("7", "[B]")];
    let err = match create_tiktoken_encoder(text.as_bytes(), &entries, PATTERN_SIMPLE) {
        Err(e) => e,
        Ok(_) => panic!("expected an error"),
    };
    assert!(matches!(err, TokenizerError::DuplicateSpecialId { id: 7 }));
}

#[test]
fn repeated_special_content_keeps_last_id() {
    let text = format!("{} 0\n", b64(b"ab"));
    let entries = vec![entry("7", "[A]"), entry("9", "[A]")];
    let backend = create_tiktoken_encoder(text.as_bytes(), &entries, PATTERN_SIMPLE).unwrap();
    // Both ids stay in the id set; the text maps to the later id.
    assert!(backend.special_token_ids.contains(&7));
    assert!(backend.special_token_ids.contains(&9));
    let unified = UnifiedTokenizer::Tiktoken(backend);
    let decoded = unified.decode(&[9], false).unwrap();
    assert_eq!(decoded, "[A]");
}

#[test]
fn encode_rejects_uncovered_byte() {
    // No single-byte tokens at all: any ordinary text is beyond the
    // vocabulary.
    let text = format!("{} 0\n", b64(b"ab"));
    let entries = vec![entry("5", "[S]")];
    let backend = create_tiktoken_encoder(text.as_bytes(), &entries, PATTERN_SIMPLE).unwrap();
    let unified = UnifiedTokenizer::Tiktoken(backend);
    let err = unified.encode("xyz", false).unwrap_err();
    assert!(matches!(err, TokenizerError::Encode { .. }));
}

#[test]
fn zero_special_vocabulary_still_encodes() {
    let text = model_with_singles(&[], 0);
    let backend = create_tiktoken_encoder(text.as_bytes(), &Vec::new(), PATTERN_SIMPLE).unwrap();
    let unified = UnifiedTokenizer::Tiktoken(backend);
    let ids = unified.encode("hi there", false).unwrap();
    assert!(!ids.is_empty());
    assert_eq!(unified.decode(&ids, false).unwrap(), "hi there");
    let with_flag = unified.encode("hi there", true).unwrap();
    assert_eq!(ids, with_flag);
}

#[test]
fn empty_special_text_is_rejected() {
    let text = model_with_singles(&[], 0);
    let entries = vec![entry("300", "[PAD]"), entry("301", "")];
    let err = match create_tiktoken_encoder(text.as_bytes(), &entries, PATTERN_SIMPLE) {
        Err(e) => e,
        Ok(_) => panic!("expected an error"),
    };
    match err {
        TokenizerError::EmptySpecialToken { key } => assert_eq!(key, "301"),
        other => panic!("unexpected error: {:?}", other),
    }
}

#[test]
fn empty_matching_pattern_is_caught_per_call() {
    // "a*" yields a zero-width match on every text (at least at the end),
    // which the engine's splitter cannot take; encoding reports an error
    // instead, and construction itself still succeeds.
    let text = model_with_singles(&[], 0);
    let backend = create_tiktoken_encoder(text.as_bytes(), &Vec::new(), "a*").unwrap();
    let unified = UnifiedTokenizer::Tiktoken(backend);
    let err = unified.encode("aaa", false).unwrap_err();
    assert!(matches!(err, TokenizerError::Encode { .. }));
    let err2 = unified.encode("b", false).unwrap_err();
    assert!(matches!(err2, TokenizerError::Encode { .. }));
}

#[test]
fn zero_width_assertion_pattern_is_caught_per_call() {
    // A word-boundary pattern matches zero width mid-text without matching
    // the empty string; the per-call guard turns that into an error rather
    // than a fault inside the engine.
    let text = model_with_singles(&[], 0);
    let backend = create_tiktoken_encoder(text.as_bytes(), &Vec::new(), r"\b").unwrap();
    let unified = UnifiedTokenizer::Tiktoken(backend);
    let err = unified.encode("ab", false).unwrap_err();
    assert!(matches!(err, TokenizerError::Encode { .. }));
    // Decoding is unaffected.
    assert!(unified.decode(&[97], false).is_ok());
}

#[test]
fn zero_width_matches_in_special_slices_are_caught() {
    // A lookbehind matches zero width only in the stretch after the
    // special token, never when the text is scanned whole; the guard
    // checks the stretches too.
    let text = model_with_singles(&[], 0);
    let entries = vec![entry("300", "x")];
    let backend =
        create_tiktoken_encoder(text.as_bytes(), &entries, r"x|(?<=y)").unwrap();
    let unified = UnifiedTokenizer::Tiktoken(backend);
    let err = unified.encode("yx", true).unwrap_err();
    assert!(matches!(err, TokenizerError::Encode { .. }));
}

#[test]
fn empty_token_allows_an_empty_matching_pattern() {
    // The vocabulary holds the empty byte string as a token (rank 300), so
    // empty pieces resolve and no per-call check is needed.
    let mut text = model_with_singles(&[], 0);
    text.push_str(" 300\n");
    let backend = create_tiktoken_encoder(text.as_bytes(), &Vec::new(), "a*").unwrap();
    let unified = UnifiedTokenizer::Tiktoken(backend);
    assert!(unified.encode("aaa", false).is_ok());
    assert!(unified.encode("b", false).is_ok());
}

#[test]
fn truncated_tail_keeps_valid_prefix() {
    let text_model = model_with_singles(&[], 0);
    let entries = vec![entry("300", "[PAD]")];
    let backend = create_tiktoken_encoder(text_model.as_bytes(), &entries, PATTERN_SIMPLE).unwrap();
    let unified = UnifiedTokenizer::Tiktoken(backend);
    let ids = unified.encode("Test 👋", false).unwrap();
    // Cutting the last byte of the emoji leaves a dangling partial
    // character; the prefix survives and the dangling id becomes U+FFFD.
    let cut = &ids[..ids.len() - 1];
    let decoded = unified.decode(cut, false).unwrap();
    assert!(decoded.starts_with("Test "));
    assert!(decoded.ends_with("\u{FFFD}"));
}

#[test]
fn backfilled_ids_decode_to_reserved_names() {
    // Ranks 0..=4 are gaps below rank 5, so each decodes to its reserved
    // token's name.
    let text = format!("{} 5\n", b64(b"ab"));
    let entries = vec![entry("900", "[S]")];
    let backend = create_tiktoken_encoder(text.as_bytes(), &entries, PATTERN_SIMPLE).unwrap();
    let unified = UnifiedTokenizer::Tiktoken(backend);
    assert_eq!(unified.decode(&[0], false).unwrap(), "<|reserved_special_token_0|>");
    assert_eq!(unified.decode(&[4], false).unwrap(), "<|reserved_special_token_4|>");
    assert_eq!(unified.decode(&[5], false).unwrap(), "ab");
}

#[test]
fn ordinary_vocabulary_shadows_a_special_id_in_its_range() {
    // The special id 3 falls inside the backfilled range, so the decoder
    // resolves it to the reserved token, not to the special text; skipping
    // special tokens still removes the id.
    let text = format!("{} 5\n", b64(b"ab"));
    let entries = vec![entry("3", "[S]")];
    let backend = create_tiktoken_encoder(text.as_bytes(), &entries, PATTERN_SIMPLE).unwrap();
    let unified = UnifiedTokenizer::Tiktoken(backend);
    assert_eq!(unified.decode(&[3], false).unwrap(), "<|reserved_special_token_3|>");
    assert_eq!(unified.decode(&[3], true).unwrap(), "");
}
