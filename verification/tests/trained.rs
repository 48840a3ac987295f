//! Tests of the trained backend behind the unified tokenizer, built from a
//! small hand-written descriptor, and of the plain option and record types.

use unitok::tokenizer::{
    offsets_from_pairs, tokenizers_encode_options, tokenizers_options, EncodeOptions,
    EncodingDetails, TruncationDirection, UnifiedTokenizer,
};

/// A minimal word-level descriptor: three words, whitespace pretokenization.
fn descriptor() -> String {
    [
        r#"{"version":"1.0","truncation":null,"padding":null,"added_tokens":[],"#,
        r#""normalizer":null,"pre_tokenizer":{"type":"Whitespace"},"#,
        r#""post_processor":null,"decoder":null,"#,
        r#""model":{"type":"WordLevel","vocab":{"hello":0,"world":1,"[UNK]":2},"unk_token":"[UNK]"}}"#,
    ]
    .concat()
}

fn trained() -> UnifiedTokenizer {
    let opts = tokenizers_options { encode_special_tokens: false };
    UnifiedTokenizer::from_bytes(descriptor().as_bytes(), &opts).unwrap()
}

#[test]
fn trained_round_trips_known_words() {
    let unified = trained();
    let ids = unified.encode("hello world", false).unwrap();
    assert_eq!(ids, vec![0, 1]);
    let decoded = unified.decode(&ids, false).unwrap();
    assert_eq!(decoded, "hello world");
}

#[test]
fn trained_reports_vocab_size() {
    let unified = trained();
    assert_eq!(unified.vocab_size(), 3);
}

#[test]
fn trained_supports_the_toggle() {
    let mut unified = trained();
    assert!(unified.supports_encode_special_tokens());
    unified.set_encode_special_tokens(true);
    assert!(unified.supports_encode_special_tokens());
}

#[test]
fn trained_details_populate_every_field() {
    let unified = trained();
    let details = unified.encode_with_details("hello world", false).unwrap();
    assert_eq!(details.ids, vec![0, 1]);
    assert!(details.type_ids.is_some());
    assert!(details.tokens.is_some());
    assert!(details.special_tokens_mask.is_some());
    assert!(details.attention_mask.is_some());
    assert!(details.offsets.is_some());
    assert_eq!(details.tokens.unwrap(), vec!["hello", "world"]);
    assert_eq!(details.offsets.unwrap(), vec![(0, 5), (6, 11)]);
}

#[test]
fn trained_decode_is_deterministic() {
    let unified = trained();
    let first = unified.decode(&[0, 1], false).unwrap();
    let second = unified.decode(&[0, 1], false).unwrap();
    assert_eq!(first, second);
    assert_eq!(first, "hello world");
}

#[test]
fn from_bytes_rejects_garbage() {
    let opts = tokenizers_options { encode_special_tokens: false };
    assert!(UnifiedTokenizer::from_bytes(b"not a descriptor", &opts).is_err());
}

#[test]
fn truncation_constructor_accepts_both_directions() {
    assert!(UnifiedTokenizer::from_bytes_with_truncation(descriptor().as_bytes(), 5, 0).is_ok());
    assert!(UnifiedTokenizer::from_bytes_with_truncation(descriptor().as_bytes(), 5, 1).is_ok());
}

#[test]
fn truncation_constructor_rejects_bad_direction() {
    let r = UnifiedTokenizer::from_bytes_with_truncation(descriptor().as_bytes(), 5, 2);
    assert!(r.is_err());
}

#[test]
fn truncation_side_from_u8() {
    assert!(matches!(TruncationDirection::from_u8(0), Some(TruncationDirection::Left)));
    assert!(matches!(TruncationDirection::from_u8(1), Some(TruncationDirection::Right)));
    assert!(TruncationDirection::from_u8(2).is_none());
    assert!(TruncationDirection::from_u8(255).is_none());
}

#[test]
fn select_fields_drops_unwanted_sequences() {
    let details = EncodingDetails {
        ids: vec![1, 2],
        type_ids: Some(vec![0, 0]),
        tokens: Some(vec!["a".to_string(), "b".to_string()]),
        special_tokens_mask: Some(vec![0, 0]),
        attention_mask: Some(vec![1, 1]),
        offsets: Some(vec![(0, 1), (1, 2)]),
    };
    let options = tokenizers_encode_options {
        add_special_tokens: false,
        return_type_ids: true,
        return_tokens: false,
        return_special_tokens_mask: false,
        return_attention_mask: true,
        return_offsets: false,
    };
    let selected = details.select_fields(&options);
    assert_eq!(selected.ids, vec![1, 2]);
    assert!(selected.type_ids.is_some());
    assert!(selected.tokens.is_none());
    assert!(selected.special_tokens_mask.is_none());
    assert!(selected.attention_mask.is_some());
    assert!(selected.offsets.is_none());
}

#[test]
fn offsets_convert_to_spans() {
    let spans = offsets_from_pairs(&vec![(0, 5), (6, 11)]);
    assert_eq!(spans.len(), 2);
    assert_eq!(spans[0].start, 0);
    assert_eq!(spans[0].end, 5);
    assert_eq!(spans[1].start, 6);
    assert_eq!(spans[1].end, 11);
}

#[test]
fn batch_selection_always_keeps_tokens() {
    let details = EncodingDetails {
        ids: vec![3],
        type_ids: Some(vec![0]),
        tokens: Some(vec!["x".to_string()]),
        special_tokens_mask: Some(vec![0]),
        attention_mask: Some(vec![1]),
        offsets: Some(vec![(0, 1)]),
    };
    let options = EncodeOptions {
        add_special_tokens: true,
        return_type_ids: false,
        return_special_tokens_mask: false,
        return_attention_mask: false,
        return_offsets: true,
        with_offsets_char_mode: false,
    };
    let selected = details.select_batch_fields(&options);
    assert_eq!(selected.ids, vec![3]);
    assert!(selected.tokens.is_some());
    assert!(selected.type_ids.is_none());
    assert!(selected.special_tokens_mask.is_none());
    assert!(selected.attention_mask.is_none());
    assert!(selected.offsets.is_some());
}
