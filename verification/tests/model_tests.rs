use truecase::model::Model;
use truecase::trainer::ModelTrainer;

fn train(sentences: &[&str]) -> Model {
    let mut t = ModelTrainer::new();
    for s in sentences {
        t.add_sentence(s.as_bytes());
    }
    t.into_model()
}

fn tc(m: &Model, s: &str) -> String {
    String::from_utf8(m.truecase(s.as_bytes())).unwrap()
}

#[test]
fn scenario_cat_and_rocket() {
    let m = train(&["The cat sat.", "A cat meowed.", "NASA launched a rocket."]);
    assert_eq!(
        tc(&m, "the cat saw nasa launch a rocket"),
        "The cat saw NASA launch a rocket"
    );
}

#[test]
fn sentence_initial_only_word_is_folded() {
    let m = train(&["The cat sat."]);
    let f = m.best_form(b"the").expect("known word");
    assert_eq!(f.as_slice(), b"the");
    // The decoder restores the capital at sentence starts.
    assert_eq!(tc(&m, "the cat"), "The cat");
}

#[test]
fn initial_only_acronym_keeps_intrinsic_casing() {
    let m = train(&["NASA launched."]);
    let f = m.best_form(b"nasa").expect("known word");
    assert_eq!(f.as_slice(), b"NASA");
    assert_eq!(tc(&m, "they saw nasa"), "They saw NASA");
}

#[test]
fn sentence_initial_neutrality_for_acronyms() {
    let m = train(&["they saw NATO act.", "we like NATO now.", "all hail NATO today."]);
    assert_eq!(tc(&m, "nato is big"), "NATO is big");
    assert_eq!(tc(&m, "we love nato"), "We love NATO");
}

#[test]
fn merge_order_does_not_matter() {
    let a = "The cat sat.";
    let b = "NASA launched a rocket.";
    let c = "A cat meowed.";
    let m1 = train(&[a, b, c]);
    let m2 = train(&[c, b, a]);
    let probes = [
        "the cat saw nasa launch a rocket",
        "a rocket meowed",
        "cat cat cat",
    ];
    for p in probes.iter() {
        assert_eq!(tc(&m1, p), tc(&m2, p));
    }
    assert_eq!(
        m1.best_form(b"cat").map(|v| v.clone()),
        m2.best_form(b"cat").map(|v| v.clone())
    );
    assert_eq!(
        m1.best_form(b"nasa").map(|v| v.clone()),
        m2.best_form(b"nasa").map(|v| v.clone())
    );
}

#[test]
fn decode_is_idempotent() {
    let m = train(&["The cat sat.", "NASA launched a rocket.", "we like NATO now."]);
    let inputs = [
        "the cat saw nasa",
        "NATO nato NaTo",
        "unknown WoRdS stay",
        "",
        "  .. only separators .. ",
    ];
    for s in inputs.iter() {
        let once = tc(&m, s);
        let twice = tc(&m, &once);
        assert_eq!(twice, once);
    }
}

#[test]
fn unknown_words_keep_their_casing() {
    let m = train(&["The cat sat."]);
    assert_eq!(tc(&m, "cat QuUx cat"), "Cat QuUx cat");
    // Repeated calls behave identically.
    assert_eq!(tc(&m, "cat QuUx cat"), "Cat QuUx cat");
    // The sentence-initial capital is applied even to unknown words.
    assert_eq!(tc(&m, "quux cat"), "Quux cat");
}

#[test]
fn empty_model_and_empty_sentence() {
    let m = train(&[]);
    assert_eq!(tc(&m, ""), "");
    assert_eq!(tc(&m, "xyz AbC"), "Xyz AbC");
}

#[test]
fn tie_breaks_prefer_lowercase_then_lexicographic() {
    // "foo": one "Foo" and one "foo", both non-initial: the tie goes to the
    // pure lowercase form.
    let m = train(&["x Foo y.", "x foo y."]);
    assert_eq!(m.best_form(b"foo").expect("known").as_slice(), b"foo");
    // "aa": "AA" and "Aa" tie and neither is the lowercase key: the
    // lexicographically smaller byte string wins.
    let m2 = train(&["x AA y.", "x Aa y."]);
    assert_eq!(m2.best_form(b"aa").expect("known").as_slice(), b"AA");
}

#[test]
fn majority_wins_over_minority() {
    let m = train(&["x London y.", "x London y.", "x london y."]);
    assert_eq!(m.best_form(b"london").expect("known").as_slice(), b"London");
    assert_eq!(tc(&m, "london calling"), "London calling");
}

#[test]
fn noninitial_evidence_outweighs_initial_capitals() {
    // "apple" is capitalized at sentence starts but lowercase elsewhere:
    // the model must learn the lowercase identity.
    let m = train(&["Apple pie is food.", "i ate an apple.", "an apple fell."]);
    assert_eq!(m.best_form(b"apple").expect("known").as_slice(), b"apple");
    assert_eq!(tc(&m, "the apple"), "The apple");
}

#[test]
fn initial_evidence_counts_for_intrinsic_forms() {
    // "nato": sentence-initial "NATO" twice, non-initial "NATO" once and
    // "nato" twice.  "NATO" is not the merely-first-letter-capitalized
    // variant "Nato", so its sentence-initial occurrences count too: 3
    // beats 2 and the acronym wins.
    let m = train(&["NATO.", "NATO.", "x NATO.", "x nato.", "x nato."]);
    assert_eq!(m.best_form(b"nato").expect("known").as_slice(), b"NATO");
    assert_eq!(tc(&m, "y nato z"), "Y NATO z");
}

#[test]
fn positional_capitals_are_excluded() {
    // "Apple" is exactly the first-letter-capitalized variant of "apple",
    // so its three sentence-initial occurrences are excluded; the two
    // non-initial lowercase occurrences decide.
    let m = train(&[
        "Apple pie.",
        "Apple juice.",
        "Apple cake.",
        "an apple fell.",
        "i ate an apple.",
    ]);
    assert_eq!(m.best_form(b"apple").expect("known").as_slice(), b"apple");
}

#[test]
fn best_form_unknown_is_none() {
    let m = train(&["The cat sat."]);
    assert!(m.best_form(b"dog").is_none());
}
