//! Tests of the vocabulary loader: the model-file grammar, the special-token
//! entries, the vocabulary-size rule, gap backfill and the error taxonomy.

use base64::Engine;
use unitok::errors::{LineErrorKind, TokenizerError};
use unitok::vocab::{load_vocabulary, AddedToken};

fn b64(bytes: &[u8]) -> String {
    base64::engine::general_purpose::STANDARD.encode(bytes)
}

fn added(content: &str) -> AddedToken {
    AddedToken {
        content: content.to_string(),
        lstrip: false,
        normalized: false,
        rstrip: false,
        single_word: false,
        special: true,
    }
}

fn entry(key: &str, content: &str) -> (String, AddedToken) {
    (key.to_string(), added(content))
}

fn encoder_rank(vocab: &unitok::vocab::Vocabulary, token: &[u8]) -> Option<u32> {
    for (bytes, rank) in vocab.encoder.iter() {
        if bytes.as_slice() == token {
            return Some(*rank);
        }
    }
    None
}

#[test]
fn loads_simple_model_file() {
    let text = format!("{} 0\n{} 1\n", b64(b"ab"), b64(b"cd"));
    let vocab = load_vocabulary(text.as_bytes(), &Vec::new()).unwrap();
    assert_eq!(vocab.vocab_size, 2);
    assert_eq!(encoder_rank(&vocab, b"ab"), Some(0));
    assert_eq!(encoder_rank(&vocab, b"cd"), Some(1));
    assert!(vocab.special_tokens.is_empty());
    assert!(vocab.special_token_ids.is_empty());
}

#[test]
fn vocab_size_is_max_rank_plus_one() {
    let text = format!("{} 41\n", b64(b"x"));
    let vocab = load_vocabulary(text.as_bytes(), &Vec::new()).unwrap();
    assert_eq!(vocab.vocab_size, 42);
}

#[test]
fn vocab_size_takes_special_id_when_larger() {
    let text = format!("{} 3\n", b64(b"x"));
    let entries = vec![entry("100", "[EOS]")];
    let vocab = load_vocabulary(text.as_bytes(), &entries).unwrap();
    assert_eq!(vocab.vocab_size, 101);
    assert_eq!(vocab.special_tokens, vec!["[EOS]".to_string()]);
    assert_eq!(vocab.special_token_ids, vec![100]);
}

#[test]
fn vocab_size_takes_rank_when_larger() {
    let text = format!("{} 500\n", b64(b"x"));
    let entries = vec![entry("9", "[EOS]")];
    let vocab = load_vocabulary(text.as_bytes(), &entries).unwrap();
    assert_eq!(vocab.vocab_size, 501);
}

#[test]
fn blank_lines_are_skipped() {
    let text = format!("\n  \n{} 0\n\t\n{} 1\n\n", b64(b"ab"), b64(b"cd"));
    let vocab = load_vocabulary(text.as_bytes(), &Vec::new()).unwrap();
    assert_eq!(vocab.vocab_size, 2);
}

#[test]
fn crlf_lines_are_accepted() {
    let text = format!("{} 0\r\n{} 1\r\n", b64(b"ab"), b64(b"cd"));
    let vocab = load_vocabulary(text.as_bytes(), &Vec::new()).unwrap();
    assert_eq!(vocab.vocab_size, 2);
    assert_eq!(encoder_rank(&vocab, b"cd"), Some(1));
}

#[test]
fn repeated_token_keeps_last_rank() {
    let text = format!("{} 0\n{} 1\n{} 2\n", b64(b"ab"), b64(b"cd"), b64(b"ab"));
    let vocab = load_vocabulary(text.as_bytes(), &Vec::new()).unwrap();
    assert_eq!(encoder_rank(&vocab, b"ab"), Some(2));
}

#[test]
fn gaps_are_backfilled_with_reserved_tokens() {
    // Ranks 0 and 4 are used; 1, 2, 3 are gaps below the largest rank.
    let text = format!("{} 0\n{} 4\n", b64(b"ab"), b64(b"cd"));
    let vocab = load_vocabulary(text.as_bytes(), &Vec::new()).unwrap();
    assert_eq!(vocab.vocab_size, 5);
    assert_eq!(
        encoder_rank(&vocab, b"<|reserved_special_token_0|>"),
        Some(1)
    );
    assert_eq!(
        encoder_rank(&vocab, b"<|reserved_special_token_1|>"),
        Some(2)
    );
    assert_eq!(
        encoder_rank(&vocab, b"<|reserved_special_token_2|>"),
        Some(3)
    );
    assert_eq!(vocab.encoder.len(), 5);
}

#[test]
fn bad_base64_reports_line_number() {
    let text = format!("{} 0\n??? 1\n", b64(b"ab"));
    let err = load_vocabulary(text.as_bytes(), &Vec::new()).unwrap_err();
    assert!(matches!(
        err,
        TokenizerError::Format { line: 2, kind: LineErrorKind::BadBase64 }
    ));
}

#[test]
fn missing_rank_reports_line_number() {
    let text = format!("{}\n", b64(b"ab"));
    let err = load_vocabulary(text.as_bytes(), &Vec::new()).unwrap_err();
    assert!(matches!(
        err,
        TokenizerError::Format { line: 1, kind: LineErrorKind::MissingRank }
    ));
}

#[test]
fn unparsable_rank_reports_line_number() {
    let text = format!("{} x7\n", b64(b"ab"));
    let err = load_vocabulary(text.as_bytes(), &Vec::new()).unwrap_err();
    assert!(matches!(
        err,
        TokenizerError::Format { line: 1, kind: LineErrorKind::BadRank }
    ));
}

#[test]
fn negative_rank_is_rejected() {
    let text = format!("{} -1\n", b64(b"ab"));
    let err = load_vocabulary(text.as_bytes(), &Vec::new()).unwrap_err();
    assert!(matches!(
        err,
        TokenizerError::Format { line: 1, kind: LineErrorKind::BadRank }
    ));
}

#[test]
fn plus_prefixed_rank_parses() {
    let text = format!("{} +7\n", b64(b"ab"));
    let vocab = load_vocabulary(text.as_bytes(), &Vec::new()).unwrap();
    assert_eq!(encoder_rank(&vocab, b"ab"), Some(7));
}

#[test]
fn bad_special_key_is_named() {
    let text = format!("{} 0\n", b64(b"ab"));
    let entries = vec![entry("100", "[BOS]"), entry("12x", "[EOS]")];
    let err = load_vocabulary(text.as_bytes(), &entries).unwrap_err();
    match err {
        TokenizerError::BadSpecialId { key } => assert_eq!(key, "12x"),
        other => panic!("unexpected error: {:?}", other),
    }
}

#[test]
fn largest_rank_value_is_rejected() {
    let text = format!("{} 4294967295\n", b64(b"ab"));
    let err = load_vocabulary(text.as_bytes(), &Vec::new()).unwrap_err();
    assert!(matches!(err, TokenizerError::RankOverflow));
}

#[test]
fn duplicate_rank_is_rejected() {
    let text = format!("{} 5\n{} 5\n", b64(b"ab"), b64(b"cd"));
    let err = load_vocabulary(text.as_bytes(), &Vec::new()).unwrap_err();
    assert!(matches!(err, TokenizerError::DuplicateRank { rank: 5 }));
}

#[test]
fn empty_token_field_decodes_to_empty_token() {
    // A line that starts with a space has an empty (valid) base64 field.
    let text = " 3".to_string();
    let vocab = load_vocabulary(text.as_bytes(), &Vec::new()).unwrap();
    assert_eq!(encoder_rank(&vocab, b""), Some(3));
}

#[test]
fn third_field_is_ignored() {
    let text = format!("{} 2 extra\n", b64(b"ab"));
    let vocab = load_vocabulary(text.as_bytes(), &Vec::new()).unwrap();
    assert_eq!(encoder_rank(&vocab, b"ab"), Some(2));
}

#[test]
fn empty_model_file_yields_size_one() {
    let vocab = load_vocabulary(b"", &Vec::new()).unwrap();
    assert_eq!(vocab.vocab_size, 1);
    assert!(vocab.encoder.is_empty());
}

#[test]
fn leading_zeros_in_rank_parse() {
    let text = format!("{} 007\n", b64(b"ab"));
    let vocab = load_vocabulary(text.as_bytes(), &Vec::new()).unwrap();
    assert_eq!(encoder_rank(&vocab, b"ab"), Some(7));
}
