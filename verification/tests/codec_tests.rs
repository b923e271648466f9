use truecase::codec::SerializationError;
use truecase::model::Model;
use truecase::trainer::ModelTrainer;

fn train(sentences: &[&str]) -> Model {
    let mut t = ModelTrainer::new();
    for s in sentences {
        t.add_sentence(s.as_bytes());
    }
    t.into_model()
}

fn tc(m: &Model, s: &str) -> String {
    String::from_utf8(m.truecase(s.as_bytes())).unwrap()
}

fn put_u64(out: &mut Vec<u8>, n: u64) {
    out.extend_from_slice(&n.to_le_bytes());
}

fn put_entry(out: &mut Vec<u8>, key: &[u8], form: &[u8]) {
    put_u64(out, key.len() as u64);
    out.extend_from_slice(key);
    put_u64(out, form.len() as u64);
    out.extend_from_slice(form);
}

#[test]
fn save_load_keeps_behavior() {
    let m = train(&["The cat sat.", "A cat meowed.", "NASA launched a rocket.", "we like NATO now."]);
    let bytes = m.to_bytes();
    let loaded = Model::from_bytes(&bytes).expect("saved bytes load back");
    let corpus = [
        "the cat saw nasa launch a rocket",
        "nato nato NATO",
        "unknown WoRdS stay",
        "",
        "cat.",
    ];
    for s in corpus.iter() {
        assert_eq!(tc(&loaded, s), tc(&m, s));
    }
}

#[test]
fn empty_model_roundtrip() {
    let m = train(&[]);
    let bytes = m.to_bytes();
    assert_eq!(bytes.len(), 0);
    let loaded = Model::from_bytes(&bytes).expect("empty model loads");
    assert_eq!(tc(&loaded, "hello there"), "Hello there");
}

#[test]
fn truncated_bytes_are_malformed() {
    assert!(matches!(Model::from_bytes(&[1, 2, 3]), Err(SerializationError::Malformed)));
    // A length prefix that promises more data than there is.
    let mut bytes = Vec::new();
    put_u64(&mut bytes, 100);
    assert!(matches!(Model::from_bytes(&bytes), Err(SerializationError::Malformed)));
}

#[test]
fn form_not_folding_to_key_is_malformed() {
    let mut bytes = Vec::new();
    put_entry(&mut bytes, b"ab", b"CD");
    assert!(matches!(Model::from_bytes(&bytes), Err(SerializationError::Malformed)));
}

#[test]
fn duplicate_keys_are_malformed() {
    let mut bytes = Vec::new();
    put_entry(&mut bytes, b"cat", b"Cat");
    put_entry(&mut bytes, b"cat", b"cat");
    assert!(matches!(Model::from_bytes(&bytes), Err(SerializationError::Malformed)));
}

#[test]
fn hand_written_record_loads() {
    let mut bytes = Vec::new();
    put_entry(&mut bytes, b"nasa", b"NASA");
    put_entry(&mut bytes, b"cat", b"cat");
    let m = Model::from_bytes(&bytes).expect("well-formed record loads");
    assert_eq!(tc(&m, "nasa cat"), "NASA cat");
}
