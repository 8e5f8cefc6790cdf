use litsea::language::Language;
use litsea::segmenter::Segmenter;
use markov_notestock::builder::MarkovBuilder;
use markov_notestock::error::MarkovError;
use markov_notestock::generator::MarkovGenerator;
use markov_notestock::model::MarkovModel;
use markov_notestock::token::Token;

fn w(s: &str) -> Token {
    Token::Word(s.to_string())
}

fn words(ws: &[&str]) -> Vec<String> {
    ws.iter().map(|s| s.to_string()).collect()
}

fn builder() -> MarkovBuilder {
    MarkovBuilder::from_segmenter(Segmenter::new(Language::Japanese))
}

fn model_of(texts: &[&[&str]]) -> MarkovModel {
    let mut b = builder();
    for t in texts {
        b.learn_tokens(&words(t));
    }
    b.build()
}

#[test]
fn counting_a_b_a() {
    let m = model_of(&[&["a", "b", "a"]]);
    assert_eq!(m.count(&Token::Bos, &w("a")), 1);
    assert_eq!(m.count(&w("a"), &w("b")), 1);
    assert_eq!(m.count(&w("b"), &w("a")), 1);
    assert_eq!(m.count(&w("a"), &Token::Eos), 1);
    assert_eq!(m.count(&Token::Bos, &Token::Eos), 0);
    assert_eq!(m.count(&w("b"), &Token::Eos), 0);
    assert!(m.contains(&w("a")));
    assert!(m.contains(&w("b")));
    assert!(!m.contains(&Token::Eos));
}

#[test]
fn learning_twice_doubles_path_counts() {
    let mut b = builder();
    b.learn_tokens(&words(&["x", "y"]));
    b.learn_tokens(&words(&["p", "q"]));
    b.learn_tokens(&words(&["p", "q"]));
    let m = b.build();
    assert_eq!(m.count(&Token::Bos, &w("p")), 2);
    assert_eq!(m.count(&w("p"), &w("q")), 2);
    assert_eq!(m.count(&w("q"), &Token::Eos), 2);
    assert_eq!(m.count(&Token::Bos, &w("x")), 1);
    assert_eq!(m.count(&w("x"), &w("y")), 1);
    assert_eq!(m.count(&w("y"), &Token::Eos), 1);
}

#[test]
fn empty_text_counts_start_to_end_only() {
    let mut b = builder();
    b.learn_one("");
    let m = b.build();
    assert_eq!(m.count(&Token::Bos, &Token::Eos), 1);
    assert!(m.contains(&Token::Bos));
    assert_eq!(m.rows.len(), 1);
    assert_eq!(m.rows[0].next.len(), 1);
}

#[test]
fn empty_token_list_counts_start_to_end() {
    let m = model_of(&[&[], &[]]);
    assert_eq!(m.count(&Token::Bos, &Token::Eos), 2);
    assert_eq!(m.rows.len(), 1);
}

#[test]
fn learn_many_empty_texts() {
    let mut b = builder();
    b.learn_many(&["".to_string(), "".to_string(), "".to_string()]);
    let m = b.build();
    assert_eq!(m.count(&Token::Bos, &Token::Eos), 3);
}

#[test]
fn learn_one_nonempty_text_reaches_end() {
    let mut b = builder();
    b.learn_one("これはテストです。");
    let m = b.build();
    assert!(m.contains(&Token::Bos));
    assert_eq!(m.count(&Token::Bos, &Token::Eos), 0);
}

#[test]
fn generation_reproduces_single_text() {
    let m = model_of(&[&["the", "cat", "sat"]]);
    let mut g = MarkovGenerator::from_model(m);
    for _ in 0..5 {
        assert_eq!(g.generate().unwrap(), words(&["the", "cat", "sat"]));
    }
}

#[test]
fn generation_of_empty_text_is_empty() {
    let m = model_of(&[&[]]);
    let mut g = MarkovGenerator::from_model(m);
    assert_eq!(g.generate().unwrap(), Vec::<String>::new());
}

#[test]
fn generation_without_model_fails() {
    let mut g = MarkovGenerator::new();
    assert_eq!(g.generate(), Err(MarkovError::UninitializedModel));
    assert!(g.get_data().is_none());
}

#[test]
fn set_start_unknown_seed_fails() {
    let mut g = MarkovGenerator::from_model(model_of(&[&["a", "b"]]));
    assert_eq!(g.set_start(Some("x".to_string())), Err(MarkovError::UnknownSeed));
    assert!(g.current == Token::Bos);
    let mut empty = MarkovGenerator::new();
    assert_eq!(empty.set_start(Some("a".to_string())), Err(MarkovError::UnknownSeed));
}

#[test]
fn set_start_known_seed_positions_current() {
    let mut g = MarkovGenerator::from_model(model_of(&[&["a", "b", "c"]]));
    assert_eq!(g.set_start(Some("b".to_string())), Ok(()));
    assert!(g.current == w("b"));
    assert_eq!(g.generate().unwrap(), words(&["b", "c"]));
    assert!(g.current == Token::Bos);
    assert_eq!(g.set_start(None), Ok(()));
    assert_eq!(g.generate().unwrap(), words(&["a", "b", "c"]));
}

#[test]
fn set_model_and_get_data() {
    let mut g = MarkovGenerator::new();
    g.set_model(model_of(&[&["a"]]));
    let d = g.get_data().unwrap();
    assert_eq!(d.count(&Token::Bos, &w("a")), 1);
    assert_eq!(d.count(&w("a"), &Token::Eos), 1);
}

#[test]
fn weighted_sampling_follows_counts() {
    let m = model_of(&[&["a"], &["a"], &["a"], &["b"]]);
    let mut g = MarkovGenerator::from_model(m);
    let trials = 4000;
    let mut a = 0;
    for _ in 0..trials {
        let out = g.generate().unwrap();
        assert_eq!(out.len(), 1);
        if out[0] == "a" {
            a += 1;
        } else {
            assert_eq!(out[0], "b");
        }
    }
    let freq = a as f64 / trials as f64;
    assert!((freq - 0.75).abs() < 0.05, "frequency of a: {}", freq);
}

#[test]
fn token_equality() {
    assert!(Token::Bos == Token::Bos);
    assert!(Token::Bos != Token::Eos);
    assert!(w("a") == w("a"));
    assert!(w("a") != w("b"));
    assert!(w("") != Token::Bos);
    assert!(w("a").duplicate() == w("a"));
}

#[test]
fn learn_one_words_cover_the_text() {
    let mut b = builder();
    b.learn_one("ab");
    let m = b.build();
    // Whatever the split, the first word starts with 'a' and the words spell the text.
    let mut cur = Token::Bos;
    let mut text = String::new();
    loop {
        let row = m.rows.iter().find(|r| r.from == cur).unwrap();
        assert_eq!(row.next.len(), 1);
        match &row.next[0].0 {
            Token::Word(s) => {
                text.push_str(s);
                cur = row.next[0].0.duplicate();
            }
            _ => break,
        }
    }
    assert_eq!(text, "ab");
}
