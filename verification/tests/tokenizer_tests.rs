use truecase::tokenizer::{tokenize, Token};

fn concat(tokens: &[Token]) -> Vec<u8> {
    let mut out = Vec::new();
    for t in tokens {
        match t {
            Token::Word(v) => out.extend_from_slice(v),
            Token::Separator(v) => out.extend_from_slice(v),
        }
    }
    out
}

#[test]
fn tokenize_roundtrip_simple() {
    let inputs: [&[u8]; 6] = [
        b"The cat sat.",
        b"  leading and trailing  ",
        b"no-separators",
        b"a",
        b"...",
        b"mixed 123 abc, def!",
    ];
    for s in inputs.iter() {
        let toks = tokenize(s);
        assert_eq!(concat(&toks), s.to_vec());
    }
}

#[test]
fn tokenize_empty_is_empty() {
    let toks = tokenize(b"");
    assert_eq!(toks.len(), 0);
}

#[test]
fn tokenize_apostrophe_is_word_internal() {
    let toks = tokenize(b"don't stop");
    match &toks[0] {
        Token::Word(v) => assert_eq!(v.as_slice(), b"don't"),
        Token::Separator(_) => panic!("expected a word token"),
    }
    assert_eq!(toks.len(), 3);
}

#[test]
fn tokenize_alternates_kinds() {
    let toks = tokenize(b"a b c");
    assert_eq!(toks.len(), 5);
    let mut expect_word = true;
    for t in &toks {
        match t {
            Token::Word(_) => assert!(expect_word),
            Token::Separator(_) => assert!(!expect_word),
        }
        expect_word = !expect_word;
    }
}

#[test]
fn tokenize_digits_join_words() {
    let toks = tokenize(b"abc123 x");
    match &toks[0] {
        Token::Word(v) => assert_eq!(v.as_slice(), b"abc123"),
        Token::Separator(_) => panic!("expected a word token"),
    }
}

#[test]
fn tokenize_utf8_stays_in_one_token() {
    let s = "caf\u{e9} time".as_bytes();
    let toks = tokenize(s);
    match &toks[0] {
        Token::Word(v) => assert_eq!(v.as_slice(), "caf\u{e9}".as_bytes()),
        Token::Separator(_) => panic!("expected a word token"),
    }
    assert_eq!(concat(&toks), s.to_vec());
}
