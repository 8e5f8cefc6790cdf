use litsea::language::Language;
use litsea::segmenter::Segmenter;
use markov_notestock::builder::MarkovBuilder;
use markov_notestock::codec::{decode_model, encode_model};
use markov_notestock::error::MarkovError;
use markov_notestock::generator::MarkovGenerator;
use markov_notestock::model::MarkovModel;
use markov_notestock::token::Token;

fn w(s: &str) -> Token {
    Token::Word(s.to_string())
}

fn model_of(texts: &[&[&str]]) -> MarkovModel {
    let mut b = MarkovBuilder::from_segmenter(Segmenter::new(Language::Japanese));
    for t in texts {
        let ws: Vec<String> = t.iter().map(|s| s.to_string()).collect();
        b.learn_tokens(&ws);
    }
    b.build()
}

#[test]
fn round_trip_keeps_counts() {
    let m = model_of(&[&["a", "b", "a"], &["猫", "が", "いる"], &[], &["a", "b"]]);
    let bytes = encode_model(m.duplicate());
    let d = decode_model(&bytes).unwrap();
    for (x, y) in [
        (Token::Bos, w("a")),
        (w("a"), w("b")),
        (w("b"), w("a")),
        (w("a"), Token::Eos),
        (w("b"), Token::Eos),
        (Token::Bos, w("猫")),
        (w("が"), w("いる")),
        (Token::Bos, Token::Eos),
    ] {
        assert_eq!(d.count(&x, &y), m.count(&x, &y));
        assert!(d.count(&x, &y) > 0);
    }
    assert_eq!(d.rows.len(), m.rows.len());
    assert_eq!(encode_model(d), bytes);
}

#[test]
fn encoding_of_empty_model() {
    let bytes = encode_model(MarkovModel::new());
    assert_eq!(bytes, vec![0u8; 8]);
    let d = decode_model(&bytes).unwrap();
    assert_eq!(d.rows.len(), 0);
}

#[test]
fn encoding_layout() {
    let m = model_of(&[&["ab"]]);
    let bytes = encode_model(m);
    let mut expected: Vec<u8> = vec![2, 0, 0, 0, 0, 0, 0, 0];
    expected.extend([0u8, 1, 0, 0, 0, 0, 0, 0, 0]);
    expected.extend([1u8, 2, 0, 0, 0, 0, 0, 0, 0, b'a', b'b']);
    expected.extend([1u8, 0, 0, 0, 0, 0, 0, 0]);
    expected.extend([1u8, 2, 0, 0, 0, 0, 0, 0, 0, b'a', b'b']);
    expected.extend([1u8, 0, 0, 0, 0, 0, 0, 0]);
    expected.extend([2u8]);
    expected.extend([1u8, 0, 0, 0, 0, 0, 0, 0]);
    assert_eq!(bytes, expected);
}

#[test]
fn truncated_bytes_fail_to_decode() {
    let bytes = encode_model(model_of(&[&["a", "b"]]));
    for n in 0..bytes.len() {
        assert!(matches!(decode_model(&bytes[..n]), Err(MarkovError::Decode)));
    }
}

#[test]
fn trailing_bytes_fail_to_decode() {
    let mut bytes = encode_model(model_of(&[&["a"]]));
    bytes.push(0);
    assert!(matches!(decode_model(&bytes), Err(MarkovError::Decode)));
}

#[test]
fn corrupted_bytes_fail_to_decode() {
    let bytes = encode_model(model_of(&[&["a"]]));
    let mut bad_tag = bytes.clone();
    bad_tag[8] = 7;
    assert!(matches!(decode_model(&bad_tag), Err(MarkovError::Decode)));
    let mut zero_count = bytes.clone();
    let n = zero_count.len();
    zero_count[n - 8] = 0;
    assert!(matches!(decode_model(&zero_count), Err(MarkovError::Decode)));
    let mut bad_utf8 = bytes.clone();
    bad_utf8[18] = 0xff;
    assert!(matches!(decode_model(&bad_utf8), Err(MarkovError::Decode)));
}

#[test]
fn duplicate_source_fails_to_decode() {
    let mut bytes: Vec<u8> = vec![2, 0, 0, 0, 0, 0, 0, 0];
    for _ in 0..2 {
        bytes.extend([0u8, 1, 0, 0, 0, 0, 0, 0, 0, 2, 1, 0, 0, 0, 0, 0, 0, 0]);
    }
    assert!(matches!(decode_model(&bytes), Err(MarkovError::Decode)));
    bytes[0] = 1;
    bytes.truncate(8 + 18);
    assert!(decode_model(&bytes).is_ok());
}

#[test]
fn failed_load_keeps_previous_model() {
    let bytes = encode_model(model_of(&[&["a", "b"]]));
    let mut current = MarkovGenerator::from_bincode(&bytes).unwrap();
    if let Ok(g) = MarkovGenerator::from_bincode(&bytes[..bytes.len() - 1]) {
        current = g;
    }
    assert_eq!(current.generate().unwrap(), vec!["a".to_string(), "b".to_string()]);
    assert!(matches!(
        MarkovGenerator::from_bincode(&[1, 2, 3]),
        Err(MarkovError::Decode)
    ));
}

#[test]
fn invalid_symbols_fail_to_decode() {
    // End as a source.
    let end_source: Vec<u8> = vec![1, 0, 0, 0, 0, 0, 0, 0, 2, 1, 0, 0, 0, 0, 0, 0, 0, 2, 1, 0, 0, 0, 0, 0, 0, 0];
    assert!(matches!(decode_model(&end_source), Err(MarkovError::Decode)));
    // Start as a destination.
    let start_dest: Vec<u8> = vec![1, 0, 0, 0, 0, 0, 0, 0, 0, 1, 0, 0, 0, 0, 0, 0, 0, 0, 1, 0, 0, 0, 0, 0, 0, 0];
    assert!(matches!(decode_model(&start_dest), Err(MarkovError::Decode)));
    // An empty word as a destination.
    let empty_word: Vec<u8> = vec![
        1, 0, 0, 0, 0, 0, 0, 0, 0, 1, 0, 0, 0, 0, 0, 0, 0, 1, 0, 0, 0, 0, 0, 0, 0, 0, 1, 0, 0, 0,
        0, 0, 0, 0,
    ];
    assert!(matches!(decode_model(&empty_word), Err(MarkovError::Decode)));
    // The same table with the end marker as destination decodes.
    let good: Vec<u8> = vec![1, 0, 0, 0, 0, 0, 0, 0, 0, 1, 0, 0, 0, 0, 0, 0, 0, 2, 1, 0, 0, 0, 0, 0, 0, 0];
    assert!(decode_model(&good).is_ok());
}
