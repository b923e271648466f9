//! The frozen casing model and its decoder.
//!
//! `into_model` reduces the trainer's statistics to one chosen casing-form
//! per known lowercased word.  The choice is a pure function of the
//! statistics map, so equal statistics give equal models whatever order the
//! evidence arrived in.
//!
//! Decision policy, per lowercased word `k`:
//! - a form's weight is its total count, except that sentence-initial
//!   occurrences of the first-letter-capitalized variant of `k` (the form
//!   positional capitalization itself produces, "Nato" for "nato") are
//!   excluded, so that capitalization forced by sentence starts is not
//!   learned as the word's identity; an acronym like "NATO" keeps its
//!   initial occurrences, since positional capitalization cannot produce it;
//! - among the forms with positive weight the highest weight wins; ties
//!   prefer the pure lowercase form `k` itself, then the lexicographically
//!   smallest form, so the choice is deterministic and independent of
//!   insertion order;
//! - a word seen only sentence-initially falls back to its most frequent
//!   initial form with the first letter folded to lowercase — unless a later
//!   letter of that form is uppercase (an acronym such as "NASA"), which is
//!   intrinsic casing and is kept whole.
//!
//! Decoding looks every word token up under its lowercase fold; a known word
//! becomes its chosen form, an unknown word keeps its original casing.  The
//! first word token of the sentence then has its first letter raised to
//! uppercase.  Separators pass through unchanged.

use vstd::prelude::*;

use crate::bytes::{bytes_eq, copy_bytes, lex_le, lex_le_bytes, lemma_lex_le_antisym,
    lemma_lex_le_total, lemma_lex_le_trans};
use crate::tokenizer::{is_word_byte, lemma_word_byte_case, lower_byte, lower_seq, spec_concat,
    spec_tokenize, to_lower_bytes, tokenize, upper_byte, wf_tokens, Token, TokenView, toks_view};
use crate::trainer::{form_count, forms_wf, lemma_form_count_absent, lemma_form_count_index,
    lemma_form_count_pos, FormCount,
    lemma_stats_count_index, lemma_stats_count_pos, sel, stats_count, stats_map, stats_wf,
    vcount, ModelTrainer, StatKey, WordStats};

verus! {

/// The word `k` has any training evidence in the statistics `v`.
pub open spec fn known(v: Map<StatKey, nat>, k: Seq<u8>) -> bool {
    exists|p: StatKey| #[trigger] vcount(v, p) > 0 && p.key == k
}

/// The word `k` has non-initial evidence in `v`.
pub open spec fn has_noninit(v: Map<StatKey, nat>, k: Seq<u8>) -> bool {
    exists|p: StatKey| #[trigger] vcount(v, p) > 0 && p.key == k && !p.initial
}

/// The tie-break preference among casing-forms of the word `k`: the pure
/// lowercase form `k` itself ranks first, all other forms rank
/// lexicographically.
pub open spec fn pref_le(k: Seq<u8>, f: Seq<u8>, g: Seq<u8>) -> bool {
    if f == g {
        true
    } else if f == k {
        true
    } else if g == k {
        false
    } else {
        lex_le(f, g)
    }
}

/// `pref_le` is transitive.
pub proof fn lemma_pref_le_trans(k: Seq<u8>, a: Seq<u8>, b: Seq<u8>, c: Seq<u8>)
    requires
        pref_le(k, a, b),
        pref_le(k, b, c),
    ensures
        pref_le(k, a, c),
{
    if a != b && b != c && a != c && a != k {
        assert(b != k);
        if c != k {
            lemma_lex_le_trans(a, b, c);
        }
    }
}

/// `f` is the best casing-form for the word `k` among the cells of `v` with
/// position `ini`: it has evidence there, and every rival has a smaller
/// count or loses the tie-break.
pub open spec fn is_best(v: Map<StatKey, nat>, k: Seq<u8>, ini: bool, f: Seq<u8>) -> bool {
    let c = vcount(v, StatKey { key: k, form: f, initial: ini });
    c > 0 && (forall|p: StatKey|
        (#[trigger] vcount(v, p) > 0 && p.key == k && p.initial == ini) ==> (vcount(v, p) < c || (
        vcount(v, p) == c && pref_le(k, f, p.form))))
}

/// At most one form is best: the order behind `is_best` is total.
pub proof fn lemma_best_unique(v: Map<StatKey, nat>, k: Seq<u8>, ini: bool, f1: Seq<u8>, f2: Seq<u8>)
    requires
        is_best(v, k, ini, f1),
        is_best(v, k, ini, f2),
    ensures
        f1 == f2,
{
    if f1 != f2 {
        let p1 = StatKey { key: k, form: f1, initial: ini };
        let p2 = StatKey { key: k, form: f2, initial: ini };
        assert(vcount(v, p2) > 0 && p2.key == k && p2.initial == ini);
        assert(vcount(v, p1) > 0 && p1.key == k && p1.initial == ini);
        assert(vcount(v, p1) == vcount(v, p2));
        assert(pref_le(k, f1, f2) && pref_le(k, f2, f1));
        if f1 != k && f2 != k {
            lemma_lex_le_antisym(f1, f2);
        }
    }
}

/// The weight of the casing-form `f` of the word `k`: its total count,
/// excluding the sentence-initial occurrences of the first-letter-
/// capitalized variant of `k` — the one form positional capitalization
/// itself produces.
pub open spec fn form_weight(v: Map<StatKey, nat>, k: Seq<u8>, f: Seq<u8>) -> nat {
    vcount(v, StatKey { key: k, form: f, initial: false }) + if f == upper_first(k) {
        0
    } else {
        vcount(v, StatKey { key: k, form: f, initial: true })
    }
}

/// `f` is the best casing-form for the word `k`: it has positive weight,
/// and every rival has a smaller weight or loses the tie-break.
pub open spec fn is_best_weighted(v: Map<StatKey, nat>, k: Seq<u8>, f: Seq<u8>) -> bool {
    form_weight(v, k, f) > 0 && (forall|g: Seq<u8>|
        #[trigger] form_weight(v, k, g) > 0 ==> (form_weight(v, k, g) < form_weight(v, k, f) || (
        form_weight(v, k, g) == form_weight(v, k, f) && pref_le(k, f, g))))
}

/// At most one form is best by weight.
pub proof fn lemma_best_weighted_unique(v: Map<StatKey, nat>, k: Seq<u8>, f1: Seq<u8>, f2: Seq<u8>)
    requires
        is_best_weighted(v, k, f1),
        is_best_weighted(v, k, f2),
    ensures
        f1 == f2,
{
    if f1 != f2 {
        assert(form_weight(v, k, f1) == form_weight(v, k, f2));
        assert(pref_le(k, f1, f2) && pref_le(k, f2, f1));
        if f1 != k && f2 != k {
            lemma_lex_le_antisym(f1, f2);
        }
    }
}

/// `pref_le` is total.
pub proof fn lemma_pref_le_total(k: Seq<u8>, f: Seq<u8>, g: Seq<u8>)
    ensures
        pref_le(k, f, g) || pref_le(k, g, f),
{
    lemma_lex_le_total(f, g);
}

/// True when some byte after the first is an ASCII uppercase letter:
/// intrinsic casing such as an acronym, not mere positional capitalization.
pub open spec fn rest_has_upper(f: Seq<u8>) -> bool {
    exists|i: int| 1 <= i < f.len() && 65 <= #[trigger] f[i] <= 90
}

/// Fold only the first byte to lowercase.
pub open spec fn lower_first(f: Seq<u8>) -> Seq<u8> {
    if f.len() == 0 {
        f
    } else {
        seq![lower_byte(f.first())] + f.drop_first()
    }
}

/// Raise only the first byte to uppercase.
pub open spec fn upper_first(f: Seq<u8>) -> Seq<u8> {
    if f.len() == 0 {
        f
    } else {
        seq![upper_byte(f.first())] + f.drop_first()
    }
}

/// The stored form for a word seen only sentence-initially: positional
/// capitalization (first letter only) is undone, intrinsic casing is kept.
pub open spec fn fallback_form(f: Seq<u8>) -> Seq<u8> {
    if rest_has_upper(f) {
        f
    } else {
        lower_first(f)
    }
}

/// The casing-form the model stores for a known word `k`.
pub open spec fn chosen(v: Map<StatKey, nat>, k: Seq<u8>) -> Seq<u8> {
    if has_noninit(v, k) {
        choose|f: Seq<u8>| is_best_weighted(v, k, f)
    } else {
        fallback_form(choose|f: Seq<u8>| is_best(v, k, true, f))
    }
}

/// The model derived from a statistics map: its best casing-form for every
/// word with any evidence.
pub open spec fn model_of(v: Map<StatKey, nat>) -> Map<Seq<u8>, Seq<u8>> {
    Map::new(|k: Seq<u8>| known(v, k), |k: Seq<u8>| chosen(v, k))
}

/// Every stored form folds back to its own key.
pub open spec fn model_map_wf(m: Map<Seq<u8>, Seq<u8>>) -> bool {
    forall|k: Seq<u8>| #[trigger] m.contains_key(k) ==> lower_seq(m[k]) == k
}

/// What one word token decodes to: a known word becomes its stored form, an
/// unknown word keeps its original casing; the sentence-initial word then
/// has its first letter raised to uppercase.
pub open spec fn decode_word(m: Map<Seq<u8>, Seq<u8>>, w: Seq<u8>, initial: bool) -> Seq<u8> {
    let k = lower_seq(w);
    let base = if m.contains_key(k) {
        m[k]
    } else {
        w
    };
    if initial {
        upper_first(base)
    } else {
        base
    }
}

/// Decode a token sequence: word tokens are recased, separators pass
/// through; `seen` tells whether a word token occurred earlier.
pub open spec fn decode_toks(m: Map<Seq<u8>, Seq<u8>>, ts: Seq<TokenView>, seen: bool) -> Seq<u8>
    decreases ts.len(),
{
    if ts.len() == 0 {
        Seq::empty()
    } else {
        let t = ts.first();
        let out = if t.word {
            decode_word(m, t.text, !seen)
        } else {
            t.text
        };
        out + decode_toks(m, ts.drop_first(), seen || t.word)
    }
}

/// The whole decode path: tokenize, recase every word, reassemble.
pub open spec fn spec_truecase(m: Map<Seq<u8>, Seq<u8>>, s: Seq<u8>) -> Seq<u8> {
    decode_toks(m, spec_tokenize(s), false)
}

/// Folding the first byte keeps the lowercase fold of the whole string.
pub proof fn lemma_lower_of_lower_first(f: Seq<u8>)
    ensures
        lower_seq(lower_first(f)) == lower_seq(f),
{
    assert(lower_seq(lower_first(f)) =~= lower_seq(f));
}

/// Raising the first byte keeps the lowercase fold of the whole string.
pub proof fn lemma_lower_of_upper_first(f: Seq<u8>)
    ensures
        lower_seq(upper_first(f)) == lower_seq(f),
{
    assert(lower_seq(upper_first(f)) =~= lower_seq(f));
}

/// One entry of the frozen model: a lowercased word and its chosen
/// casing-form.
pub struct ModelEntry {
    pub key: Vec<u8>,
    pub form: Vec<u8>,
}

/// The immutable truecasing model: for every known lowercased word, the one
/// casing-form the decoder will use.  Frozen by `into_model`, read-only
/// afterwards.
pub struct Model {
    pub entries: Vec<ModelEntry>,
}

/// Whether the entry list has an entry for `k` (first match decides).
pub open spec fn mentries_has(es: Seq<ModelEntry>, k: Seq<u8>) -> bool
    decreases es.len(),
{
    if es.len() == 0 {
        false
    } else if es.first().key@ == k {
        true
    } else {
        mentries_has(es.drop_first(), k)
    }
}

/// The stored form of the first entry for `k`.
pub open spec fn mentries_at(es: Seq<ModelEntry>, k: Seq<u8>) -> Seq<u8>
    decreases es.len(),
{
    if es.len() == 0 {
        Seq::empty()
    } else if es.first().key@ == k {
        es.first().form@
    } else {
        mentries_at(es.drop_first(), k)
    }
}

impl View for Model {
    type V = Map<Seq<u8>, Seq<u8>>;

    open spec fn view(&self) -> Map<Seq<u8>, Seq<u8>> {
        Map::new(
            |k: Seq<u8>| mentries_has(self.entries@, k),
            |k: Seq<u8>| mentries_at(self.entries@, k),
        )
    }
}

/// The first entry for `k` determines lookup.
pub proof fn lemma_mentries_first(es: Seq<ModelEntry>, j: int)
    requires
        0 <= j < es.len(),
        forall|j2: int| 0 <= j2 < j ==> es[j2].key@ != es[j].key@,
    ensures
        mentries_has(es, es[j].key@),
        mentries_at(es, es[j].key@) == es[j].form@,
    decreases es.len(),
{
    if j > 0 {
        lemma_mentries_first(es.drop_first(), j - 1);
        assert(es.drop_first()[j - 1] == es[j]);
        assert forall|j2: int| 0 <= j2 < j - 1 implies #[trigger] es.drop_first()[j2].key@
            != es.drop_first()[j - 1].key@ by {
            assert(es.drop_first()[j2] == es[j2 + 1]);
        }
    }
}

/// A key in no entry is not in the model.
pub proof fn lemma_mentries_absent(es: Seq<ModelEntry>, k: Seq<u8>)
    requires
        forall|j: int| 0 <= j < es.len() ==> es[j].key@ != k,
    ensures
        !mentries_has(es, k),
    decreases es.len(),
{
    if es.len() > 0 {
        lemma_mentries_absent(es.drop_first(), k);
    }
}

/// A key in the model names some entry.
pub proof fn lemma_mentries_pos(es: Seq<ModelEntry>, k: Seq<u8>)
    requires
        mentries_has(es, k),
    ensures
        exists|j: int| 0 <= j < es.len() && es[j].key@ == k,
    decreases es.len(),
{
    if es.first().key@ != k {
        lemma_mentries_pos(es.drop_first(), k);
        let j = choose|j: int| 0 <= j < es.drop_first().len() && es.drop_first()[j].key@ == k;
        assert(es[j + 1].key@ == k);
    }
}

/// Find the first entry of a key, if any.
pub(crate) fn find_entry(es: &Vec<ModelEntry>, key: &[u8]) -> (r: Option<usize>)
    ensures
        match r {
            Some(j) => j < es@.len() && es@[j as int].key@ == key@ && (forall|j2: int|
                0 <= j2 < j ==> es@[j2].key@ != key@),
            None => forall|j: int| 0 <= j < es@.len() ==> es@[j].key@ != key@,
        },
{
    let mut i: usize = 0;
    while i < es.len()
        invariant
            i <= es@.len(),
            forall|j: int| 0 <= j < i ==> es@[j].key@ != key@,
        decreases es@.len() - i,
    {
        if bytes_eq(es[i].key.as_slice(), key) {
            return Some(i);
        }
        i = i + 1;
    }
    None
}

impl Model {
    /// The representation invariant: entry keys are distinct and every
    /// stored form folds back to its own key.
    pub open spec fn wf(&self) -> bool {
        &&& forall|i: int, j: int|
            0 <= i < j < self.entries@.len() ==> self.entries@[i].key@ != self.entries@[j].key@
        &&& forall|i: int|
            0 <= i < self.entries@.len() ==> lower_seq(self.entries@[i].form@)
                == self.entries@[i].key@
    }

    /// A well-formed model's map is well-formed: every stored form folds
    /// back to its key.
    pub proof fn lemma_wf_map(&self)
        requires
            self.wf(),
        ensures
            model_map_wf(self@),
    {
        assert forall|k: Seq<u8>| #[trigger] self@.contains_key(k) implies lower_seq(self@[k])
            == k by {
            lemma_mentries_pos(self.entries@, k);
            let j = choose|j: int| 0 <= j < self.entries@.len() && self.entries@[j].key@ == k;
            lemma_mentries_first(self.entries@, j);
        }
    }

    /// The chosen casing-form for a lowercased word, if the word is known.
    pub fn best_form(&self, key: &[u8]) -> (r: Option<&Vec<u8>>)
        ensures
            match r {
                Some(f) => self@.contains_key(key@) && f@ == self@[key@],
                None => !self@.contains_key(key@),
            },
    {
        match find_entry(&self.entries, key) {
            Some(j) => {
                proof {
                    lemma_mentries_first(self.entries@, j as int);
                }
                Some(&self.entries[j].form)
            },
            None => {
                proof {
                    lemma_mentries_absent(self.entries@, key@);
                }
                None
            },
        }
    }

    /// Restore casing in one sentence: every word token is looked up under
    /// its lowercase fold and replaced by the model's chosen form (unknown
    /// words keep their original casing), the first word of the sentence
    /// gets an uppercase first letter, and separators pass through, so the
    /// sentence's structure is kept exactly.  A pure function of the model
    /// and the input: repeated calls return the same output.
    pub fn truecase(&self, s: &[u8]) -> (r: Vec<u8>)
        ensures
            r@ == spec_truecase(self@, s@),
    {
        let ghost m = self@;
        let toks = tokenize(s);
        let ghost tv = spec_tokenize(s@);
        let mut out: Vec<u8> = Vec::new();
        let mut seen = false;
        let mut i: usize = 0;
        proof {
            assert(tv.skip(0) =~= tv);
            assert(out@ + decode_toks(m, tv, false) =~= decode_toks(m, tv, false));
        }
        while i < toks.len()
            invariant
                i <= toks@.len(),
                toks_view(toks@) == tv,
                m == self@,
                out@ + decode_toks(m, tv.skip(i as int), seen) == decode_toks(m, tv, false),
            decreases toks@.len() - i,
        {
            let ghost rest = tv.skip(i as int);
            let ghost out0 = out@;
            proof {
                assert(rest.first() == tv[i as int]);
                assert(rest.drop_first() =~= tv.skip(i as int + 1));
                assert(toks@[i as int]@ == tv[i as int]);
            }
            match &toks[i] {
                Token::Word(text) => {
                    let ghost w = text@;
                    let low = to_lower_bytes(text.as_slice());
                    let mut wout: Vec<u8>;
                    match self.best_form(low.as_slice()) {
                        Some(f) => {
                            wout = copy_bytes(f.as_slice());
                        },
                        None => {
                            wout = copy_bytes(text.as_slice());
                        },
                    }
                    let ghost base = wout@;
                    if !seen && wout.len() > 0 {
                        let b0 = wout[0];
                        let ub = if 97 <= b0 && b0 <= 122 {
                            b0 - 32
                        } else {
                            b0
                        };
                        wout.set(0, ub);
                        proof {
                            assert(wout@ =~= upper_first(base));
                        }
                    }
                    proof {
                        if !seen {
                            assert(wout@ == upper_first(base));
                        }
                        assert(wout@ == decode_word(m, w, !seen));
                    }
                    out.append(&mut wout);
                },
                Token::Separator(sep) => {
                    assert(!tv[i as int].word);
                    let mut cp = copy_bytes(sep.as_slice());
                    out.append(&mut cp);
                },
            }
            proof {
                let t = rest.first();
                let head = if t.word {
                    decode_word(m, t.text, !seen)
                } else {
                    t.text
                };
                assert(out@ =~= out0 + head);
                assert(decode_toks(m, rest, seen) == head + decode_toks(
                    m,
                    rest.drop_first(),
                    seen || t.word,
                ));
                assert((out0 + head) + decode_toks(m, tv.skip(i as int + 1), seen || t.word)
                    =~= out0 + (head + decode_toks(m, tv.skip(i as int + 1), seen || t.word)));
            }
            match &toks[i] {
                Token::Word(_) => {
                    seen = true;
                },
                Token::Separator(_) => {
                },
            }
            i = i + 1;
        }
        proof {
            assert(tv.skip(tv.len() as int) =~= Seq::<TokenView>::empty());
            assert(out@ + Seq::<u8>::empty() =~= out@);
        }
        out
    }
}

/// Raising the first byte twice raises it once.
pub proof fn lemma_upper_first_idem(f: Seq<u8>)
    ensures
        upper_first(upper_first(f)) == upper_first(f),
{
    if f.len() > 0 {
        assert(upper_first(upper_first(f)) =~= upper_first(f));
    }
}

/// The token sequence after decoding: word texts are recased, kinds and
/// separators are untouched.
pub open spec fn recase_toks(m: Map<Seq<u8>, Seq<u8>>, ts: Seq<TokenView>, seen: bool) -> Seq<
    TokenView,
>
    decreases ts.len(),
{
    if ts.len() == 0 {
        Seq::empty()
    } else {
        let t = ts.first();
        let t2 = if t.word {
            TokenView { word: true, text: decode_word(m, t.text, !seen) }
        } else {
            t
        };
        seq![t2] + recase_toks(m, ts.drop_first(), seen || t.word)
    }
}

/// Concatenation after prepending one token.
proof fn lemma_concat_prepend(t: TokenView, ts: Seq<TokenView>)
    ensures
        spec_concat(seq![t] + ts) == t.text + spec_concat(ts),
    decreases ts.len(),
{
    let s2 = seq![t] + ts;
    if ts.len() == 0 {
        assert(s2.drop_last() =~= Seq::<TokenView>::empty());
        assert(s2.last() == t);
        assert(spec_concat(s2) == spec_concat(Seq::<TokenView>::empty()) + t.text);
        assert(spec_concat(s2) =~= t.text + spec_concat(ts));
    } else {
        assert(s2.drop_last() =~= seq![t] + ts.drop_last());
        assert(s2.last() == ts.last());
        lemma_concat_prepend(t, ts.drop_last());
        assert((t.text + spec_concat(ts.drop_last())) + ts.last().text =~= t.text + (spec_concat(
            ts.drop_last(),
        ) + ts.last().text));
    }
}

/// Decoding a token sequence is concatenating its recased tokens.
proof fn lemma_decode_concat(m: Map<Seq<u8>, Seq<u8>>, ts: Seq<TokenView>, seen: bool)
    ensures
        decode_toks(m, ts, seen) == spec_concat(recase_toks(m, ts, seen)),
    decreases ts.len(),
{
    if ts.len() > 0 {
        let t = ts.first();
        let t2 = if t.word {
            TokenView { word: true, text: decode_word(m, t.text, !seen) }
        } else {
            t
        };
        lemma_decode_concat(m, ts.drop_first(), seen || t.word);
        lemma_concat_prepend(t2, recase_toks(m, ts.drop_first(), seen || t.word));
    }
}

/// What decoding does to one word token's bytes: the length is kept, and
/// every byte keeps its word-byte kind.
proof fn lemma_decode_word_shape(m: Map<Seq<u8>, Seq<u8>>, w: Seq<u8>, ini: bool)
    requires
        model_map_wf(m),
        w.len() > 0,
        forall|j: int| 0 <= j < w.len() ==> is_word_byte(#[trigger] w[j]),
    ensures
        decode_word(m, w, ini).len() == w.len(),
        forall|j: int|
            0 <= j < w.len() ==> is_word_byte(#[trigger] decode_word(m, w, ini)[j]),
{
    let k = lower_seq(w);
    let base = if m.contains_key(k) {
        m[k]
    } else {
        w
    };
    assert(k.len() == w.len());
    assert(base.len() == w.len());
    assert forall|j: int| 0 <= j < w.len() implies is_word_byte(#[trigger] base[j]) by {
        if m.contains_key(k) {
            assert(lower_seq(base) == k);
            assert(lower_byte(base[j]) == k[j]);
            assert(k[j] == lower_byte(w[j]));
            lemma_word_byte_case(base[j]);
            lemma_word_byte_case(w[j]);
        }
    }
    let out = decode_word(m, w, ini);
    if ini {
        assert(out == upper_first(base));
        assert(out.len() == w.len());
        assert forall|j: int| 0 <= j < w.len() implies is_word_byte(#[trigger] out[j]) by {
            if j == 0 {
                assert(out[0] == upper_byte(base[0]));
                lemma_word_byte_case(base[0]);
            } else {
                assert(out[j] == base[j]);
            }
        }
    }
}

/// Recasing keeps the token structure: same length, same kinds, and a
/// well-formed sequence stays well-formed.
proof fn lemma_recase_wf(m: Map<Seq<u8>, Seq<u8>>, ts: Seq<TokenView>, seen: bool)
    requires
        model_map_wf(m),
        wf_tokens(ts),
    ensures
        recase_toks(m, ts, seen).len() == ts.len(),
        forall|i: int|
            0 <= i < ts.len() ==> #[trigger] recase_toks(m, ts, seen)[i].word == ts[i].word,
        forall|i: int|
            0 <= i < ts.len() && !ts[i].word ==> #[trigger] recase_toks(m, ts, seen)[i] == ts[i],
        forall|i: int|
            0 <= i < ts.len() ==> #[trigger] recase_toks(m, ts, seen)[i].text.len()
                == ts[i].text.len(),
        wf_tokens(recase_toks(m, ts, seen)),
    decreases ts.len(),
{
    if ts.len() > 0 {
        let t = ts.first();
        let rest = ts.drop_first();
        assert forall|i: int| 0 <= i < rest.len() implies #[trigger] rest[i].text.len() > 0 by {
            assert(rest[i] == ts[i + 1]);
        }
        assert forall|i: int, j: int|
            0 <= i < rest.len() && 0 <= j < rest[i].text.len() implies is_word_byte(
            #[trigger] rest[i].text[j],
        ) == rest[i].word by {
            assert(rest[i] == ts[i + 1]);
        }
        assert forall|i: int| 0 <= i < rest.len() - 1 implies rest[i].word != #[trigger] rest[i
            + 1].word by {
            assert(rest[i] == ts[i + 1] && rest[i + 1] == ts[i + 2]);
        }
        lemma_recase_wf(m, rest, seen || t.word);
        let t2 = if t.word {
            TokenView { word: true, text: decode_word(m, t.text, !seen) }
        } else {
            t
        };
        if t.word {
            assert(t.text.len() > 0);
            assert forall|j: int| 0 <= j < t.text.len() implies is_word_byte(
                #[trigger] t.text[j],
            ) by {}
            lemma_decode_word_shape(m, t.text, !seen);
        }
        let r = recase_toks(m, ts, seen);
        let r2 = recase_toks(m, rest, seen || t.word);
        assert(r == seq![t2] + r2);
        assert forall|i: int| 0 <= i < ts.len() implies #[trigger] r[i].word == ts[i].word by {
            if i > 0 {
                assert(r[i] == r2[i - 1]);
                assert(ts[i] == rest[i - 1]);
            }
        }
        assert forall|i: int| 0 <= i < r.len() implies #[trigger] r[i].text.len() > 0 by {
            if i > 0 {
                assert(r[i] == r2[i - 1]);
            }
        }
        assert forall|i: int, j: int|
            0 <= i < r.len() && 0 <= j < r[i].text.len() implies is_word_byte(
            #[trigger] r[i].text[j],
        ) == r[i].word by {
            if i > 0 {
                assert(r[i] == r2[i - 1]);
            }
        }
        assert forall|i: int| 0 <= i < r.len() - 1 implies r[i].word != #[trigger] r[i
            + 1].word by {
            assert(r[i].word == ts[i].word && r[i + 1].word == ts[i + 1].word);
        }
    }
}

/// Decoding one word is idempotent.
proof fn lemma_decode_word_idem(m: Map<Seq<u8>, Seq<u8>>, w: Seq<u8>, ini: bool)
    requires
        model_map_wf(m),
    ensures
        decode_word(m, decode_word(m, w, ini), ini) == decode_word(m, w, ini),
{
    let k = lower_seq(w);
    let w1 = decode_word(m, w, ini);
    if m.contains_key(k) {
        let base = m[k];
        assert(lower_seq(base) == k);
        if ini {
            lemma_lower_of_upper_first(base);
            assert(lower_seq(w1) == k);
        } else {
            assert(lower_seq(w1) == k);
        }
    } else {
        if ini {
            lemma_lower_of_upper_first(w);
            assert(lower_seq(w1) == k);
            lemma_upper_first_idem(w);
        }
    }
}

/// Decoding recased tokens changes nothing further.
proof fn lemma_decode_recase(m: Map<Seq<u8>, Seq<u8>>, ts: Seq<TokenView>, seen: bool)
    requires
        model_map_wf(m),
    ensures
        decode_toks(m, recase_toks(m, ts, seen), seen) == decode_toks(m, ts, seen),
    decreases ts.len(),
{
    if ts.len() > 0 {
        let t = ts.first();
        let rest = ts.drop_first();
        let t2 = if t.word {
            TokenView { word: true, text: decode_word(m, t.text, !seen) }
        } else {
            t
        };
        let r = recase_toks(m, ts, seen);
        let r2 = recase_toks(m, rest, seen || t.word);
        assert(r == seq![t2] + r2);
        assert(r.first() == t2);
        assert(r.drop_first() =~= r2);
        if t.word {
            lemma_decode_word_idem(m, t.text, !seen);
        }
        lemma_decode_recase(m, rest, seen || t.word);
    }
}

/// Idempotence of decoding: truecasing an already-truecased sentence
/// returns it unchanged, for every sentence and every well-formed model.
pub proof fn lemma_truecase_idempotent(m: Map<Seq<u8>, Seq<u8>>, s: Seq<u8>)
    requires
        model_map_wf(m),
    ensures
        spec_truecase(m, spec_truecase(m, s)) == spec_truecase(m, s),
{
    let ts = spec_tokenize(s);
    crate::tokenizer::lemma_tokenize_wf(s);
    let ts1 = recase_toks(m, ts, false);
    lemma_decode_concat(m, ts, false);
    lemma_recase_wf(m, ts, false);
    crate::tokenizer::lemma_tokenize_inverse(ts1);
    lemma_decode_recase(m, ts, false);
}

/// Decoding keeps the sentence's structure: the output has the same tokens
/// in the same order, separators are byte-identical, and every word token
/// keeps its length — only letter casing inside words may change.
pub proof fn lemma_truecase_structure(m: Map<Seq<u8>, Seq<u8>>, s: Seq<u8>)
    requires
        model_map_wf(m),
    ensures
        spec_tokenize(spec_truecase(m, s)).len() == spec_tokenize(s).len(),
        forall|i: int|
            0 <= i < spec_tokenize(s).len() ==> #[trigger] spec_tokenize(
                spec_truecase(m, s),
            )[i].word == spec_tokenize(s)[i].word,
        forall|i: int|
            0 <= i < spec_tokenize(s).len() && !spec_tokenize(s)[i].word ==> #[trigger] spec_tokenize(
                spec_truecase(m, s),
            )[i] == spec_tokenize(s)[i],
        forall|i: int|
            0 <= i < spec_tokenize(s).len() ==> #[trigger] spec_tokenize(
                spec_truecase(m, s),
            )[i].text.len() == spec_tokenize(s)[i].text.len(),
{
    let ts = spec_tokenize(s);
    crate::tokenizer::lemma_tokenize_wf(s);
    lemma_decode_concat(m, ts, false);
    lemma_recase_wf(m, ts, false);
    crate::tokenizer::lemma_tokenize_inverse(recase_toks(m, ts, false));
}

/// Sentence-initial neutrality: when a known word's learned form does not
/// begin with a lowercase letter (an acronym, say), the sentence-initial
/// capitalization is a no-op and the decoder emits the learned form at
/// every position.
pub proof fn lemma_sentence_initial_neutrality(m: Map<Seq<u8>, Seq<u8>>, w: Seq<u8>)
    requires
        m.contains_key(lower_seq(w)),
        m[lower_seq(w)].len() == 0 || !(97 <= m[lower_seq(w)][0] <= 122),
    ensures
        decode_word(m, w, true) == m[lower_seq(w)],
        decode_word(m, w, false) == m[lower_seq(w)],
{
    let f = m[lower_seq(w)];
    if f.len() > 0 {
        assert(upper_first(f) =~= f);
    }
}

/// Merge commutativity at the model: training on two sentences in either
/// order yields the same best-casing model.
pub proof fn lemma_train_order_same_model(v: Map<StatKey, nat>, a: Seq<u8>, b: Seq<u8>)
    ensures
        model_of(crate::trainer::train_sentence(crate::trainer::train_sentence(v, a), b))
            == model_of(crate::trainer::train_sentence(crate::trainer::train_sentence(v, b), a)),
{
    crate::trainer::lemma_training_order_irrelevant(v, a, b);
}

/// Decide `pref_le` on byte slices.
fn pref_le_bytes(key: &[u8], f: &[u8], g: &[u8]) -> (r: bool)
    ensures
        r == pref_le(key@, f@, g@),
{
    if bytes_eq(f, g) {
        true
    } else if bytes_eq(f, key) {
        true
    } else if bytes_eq(g, key) {
        false
    } else {
        lex_le_bytes(f, g)
    }
}

/// Does any byte after the first hold an ASCII uppercase letter?
fn rest_upper(f: &[u8]) -> (r: bool)
    ensures
        r == rest_has_upper(f@),
{
    let mut i: usize = 1;
    while i < f.len()
        invariant
            1 <= i,
            forall|j: int| 1 <= j < i ==> !(65 <= #[trigger] f@[j] <= 90),
        decreases f@.len() - i,
    {
        if 65 <= f[i] && f[i] <= 90 {
            assert(rest_has_upper(f@));
            return true;
        }
        i = i + 1;
    }
    false
}

/// The index of the best cell of a non-empty form list: highest count,
/// ties broken by `pref_le`.
fn best_index(fs: &Vec<FormCount>, key: &[u8]) -> (r: usize)
    requires
        fs@.len() > 0,
        forms_wf(key@, fs@),
    ensures
        r < fs@.len(),
        forall|i2: int|
            0 <= i2 < fs@.len() ==> #[trigger] fs@[i2].count < fs@[r as int].count || (fs@[i2].count
                == fs@[r as int].count && pref_le(key@, fs@[r as int].form@, fs@[i2].form@)),
{
    let mut best: usize = 0;
    let mut c: usize = 1;
    while c < fs.len()
        invariant
            1 <= c <= fs@.len(),
            best < c,
            forms_wf(key@, fs@),
            forall|i2: int|
                0 <= i2 < c ==> #[trigger] fs@[i2].count < fs@[best as int].count || (fs@[i2].count
                    == fs@[best as int].count && pref_le(
                    key@,
                    fs@[best as int].form@,
                    fs@[i2].form@,
                )),
        decreases fs@.len() - c,
    {
        let replace: bool;
        if fs[c].count > fs[best].count {
            replace = true;
        } else if fs[c].count == fs[best].count {
            replace = pref_le_bytes(key, fs[c].form.as_slice(), fs[best].form.as_slice());
        } else {
            replace = false;
        }
        proof {
            let ghost b0 = best as int;
            if replace {
                assert forall|i2: int|
                    0 <= i2 < c + 1 implies #[trigger] fs@[i2].count < fs@[c as int].count || (
                    fs@[i2].count == fs@[c as int].count && pref_le(
                        key@,
                        fs@[c as int].form@,
                        fs@[i2].form@,
                    )) by {
                    if i2 < c {
                        if fs@[i2].count == fs@[c as int].count && fs@[i2].count == fs@[b0].count {
                            lemma_pref_le_trans(key@, fs@[c as int].form@, fs@[b0].form@, fs@[i2].form@);
                        }
                    }
                }
            } else {
                if fs@[c as int].count == fs@[b0].count {
                    lemma_pref_le_total(key@, fs@[b0].form@, fs@[c as int].form@);
                }
            }
        }
        if replace {
            best = c;
        }
        c = c + 1;
    }
    best
}

/// One candidate casing-form of a word while its best form is computed: the
/// form and its weight.  Weights are sums of two `u64` counts, so they are
/// held in a `u128`.
struct Cand {
    form: Vec<u8>,
    weight: u128,
}

/// Raise the first byte of a byte string to uppercase.
fn upper_first_bytes(key: &[u8]) -> (r: Vec<u8>)
    ensures
        r@ == upper_first(key@),
{
    let mut t = copy_bytes(key);
    if t.len() > 0 {
        let b0 = t[0];
        let ub = if 97 <= b0 && b0 <= 122 {
            b0 - 32
        } else {
            b0
        };
        t.set(0, ub);
        proof {
            assert(t@ =~= upper_first(key@));
        }
    }
    t
}

/// The index of the best candidate of a non-empty list: highest weight,
/// ties broken by `pref_le`.
fn best_cand(cands: &Vec<Cand>, key: &[u8]) -> (r: usize)
    requires
        cands@.len() > 0,
        forall|a: int, b: int| 0 <= a < b < cands@.len() ==> cands@[a].form@ != cands@[b].form@,
    ensures
        r < cands@.len(),
        forall|a: int|
            0 <= a < cands@.len() ==> #[trigger] cands@[a].weight < cands@[r as int].weight || (
            cands@[a].weight == cands@[r as int].weight && pref_le(
                key@,
                cands@[r as int].form@,
                cands@[a].form@,
            )),
{
    let mut best: usize = 0;
    let mut c: usize = 1;
    while c < cands.len()
        invariant
            1 <= c <= cands@.len(),
            best < c,
            forall|a: int, b: int|
                0 <= a < b < cands@.len() ==> cands@[a].form@ != cands@[b].form@,
            forall|a: int|
                0 <= a < c ==> #[trigger] cands@[a].weight < cands@[best as int].weight || (
                cands@[a].weight == cands@[best as int].weight && pref_le(
                    key@,
                    cands@[best as int].form@,
                    cands@[a].form@,
                )),
        decreases cands@.len() - c,
    {
        let replace: bool;
        if cands[c].weight > cands[best].weight {
            replace = true;
        } else if cands[c].weight == cands[best].weight {
            replace = pref_le_bytes(key, cands[c].form.as_slice(), cands[best].form.as_slice());
        } else {
            replace = false;
        }
        proof {
            let ghost b0 = best as int;
            if replace {
                assert forall|a: int|
                    0 <= a < c + 1 implies #[trigger] cands@[a].weight < cands@[c as int].weight
                    || (cands@[a].weight == cands@[c as int].weight && pref_le(
                    key@,
                    cands@[c as int].form@,
                    cands@[a].form@,
                )) by {
                    if a < c {
                        if cands@[a].weight == cands@[c as int].weight && cands@[a].weight
                            == cands@[b0].weight {
                            lemma_pref_le_trans(
                                key@,
                                cands@[c as int].form@,
                                cands@[b0].form@,
                                cands@[a].form@,
                            );
                        }
                    }
                }
            } else {
                if cands@[c as int].weight == cands@[b0].weight {
                    lemma_pref_le_total(key@, cands@[b0].form@, cands@[c as int].form@);
                }
            }
        }
        if replace {
            best = c;
        }
        c = c + 1;
    }
    best
}

/// A form's weight at row `i` of the table, read off the row's two lists.
proof fn lemma_row_weight(ws: Seq<WordStats>, i: int, f: Seq<u8>)
    requires
        stats_wf(ws),
        0 <= i < ws.len(),
    ensures
        form_weight(stats_map(ws), ws[i].key@, f) == form_count(ws[i].noninitial@, f) + (if f
            == upper_first(ws[i].key@) {
            0nat
        } else {
            form_count(ws[i].initial@, f)
        }),
{
    let pn = StatKey { key: ws[i].key@, form: f, initial: false };
    let pi = StatKey { key: ws[i].key@, form: f, initial: true };
    crate::trainer::lemma_stats_map_count(ws, pn);
    crate::trainer::lemma_stats_map_count(ws, pi);
    lemma_stats_count_index(ws, i, f, false);
    lemma_stats_count_index(ws, i, f, true);
}

/// The best casing-form of row `i`, which has non-initial evidence: the
/// form of highest weight, ties broken by the lowercase key then
/// lexicographic order.
#[verifier::rlimit(80)]
fn best_weighted_form(words: &Vec<WordStats>, i: usize, Ghost(ws): Ghost<Seq<WordStats>>) -> (r:
    Vec<u8>)
    requires
        stats_wf(ws),
        words@ == ws,
        (i as int) < ws.len(),
        ws[i as int].noninitial@.len() > 0,
    ensures
        r@ == chosen(stats_map(ws), ws[i as int].key@),
        lower_seq(r@) == ws[i as int].key@,
{
    let ghost ii = i as int;
    let ghost v = stats_map(ws);
    let w = &words[i];
    let ghost k = ws[ii].key@;
    let form: Vec<u8>;
    let ghost ninit = ws[ii].noninitial@;
    let ghost init = ws[ii].initial@;
    proof {
        assert(forms_wf(k, ninit) && forms_wf(k, init));
    }
    let title = upper_first_bytes(w.key.as_slice());
    let mut cands: Vec<Cand> = Vec::new();
    let mut j: usize = 0;
    #[verifier::loop_isolation(false)]
    while j < w.noninitial.len()
        invariant
            j <= ninit.len(),
            cands@.len() == j as int,
            forall|a: int|
                0 <= a < j ==> (#[trigger] cands@[a]).form@ == ninit[a].form@
                    && cands@[a].weight as nat == form_weight(v, k, cands@[a].form@)
                    && cands@[a].weight >= 1 && lower_seq(cands@[a].form@) == k,
        decreases ninit.len() - j,
    {
        let ghost fseq = ninit[j as int].form@;
        let ic: u64;
        if bytes_eq(w.noninitial[j].form.as_slice(), title.as_slice()) {
            ic = 0;
        } else {
            match crate::trainer::find_form(&w.initial, w.noninitial[j].form.as_slice())
            {
                Some(jj) => {
                    ic = w.initial[jj].count;
                    proof {
                        lemma_form_count_index(init, jj as int);
                    }
                },
                None => {
                    ic = 0;
                    proof {
                        lemma_form_count_absent(init, fseq);
                    }
                },
            }
        }
        let wgt: u128 = (w.noninitial[j].count as u128) + (ic as u128);
        let cf = copy_bytes(w.noninitial[j].form.as_slice());
        cands.push(Cand { form: cf, weight: wgt });
        proof {
            lemma_row_weight(ws, ii, fseq);
            lemma_form_count_index(ninit, j as int);
            assert(wgt as nat == form_weight(v, k, fseq));
        }
        j = j + 1;
    }
    proof {
        assert forall|a: int, b: int|
            0 <= a < b < cands@.len() implies cands@[a].form@ != cands@[b].form@ by {
            assert(cands@[a].form@ == ninit[a].form@);
            assert(cands@[b].form@ == ninit[b].form@);
        }
    }
    let ghost n1g = ninit.len() as int;
    let mut j2: usize = 0;
    #[verifier::loop_isolation(false)]
    while j2 < w.initial.len()
        invariant
            j2 <= init.len(),
            cands@.len() >= n1g,
            forall|a: int|
                0 <= a < n1g ==> (#[trigger] cands@[a]).form@ == ninit[a].form@,
            forall|a: int|
                0 <= a < cands@.len() ==> (#[trigger] cands@[a]).weight as nat
                    == form_weight(v, k, cands@[a].form@) && cands@[a].weight >= 1
                    && lower_seq(cands@[a].form@) == k,
            forall|a: int|
                n1g <= a < cands@.len() ==> exists|jj: int|
                    0 <= jj < j2 && (#[trigger] cands@[a]).form@ == init[jj].form@,
            forall|a: int, b: int|
                0 <= a < b < cands@.len() ==> cands@[a].form@ != cands@[b].form@,
            forall|jj: int|
                0 <= jj < j2 ==> (#[trigger] init[jj]).form@ == upper_first(k) || (
                exists|a: int| 0 <= a < cands@.len() && cands@[a].form@
                    == init[jj].form@),
        decreases init.len() - j2,
    {
        let ghost fseq = init[j2 as int].form@;
        if !bytes_eq(w.initial[j2].form.as_slice(), title.as_slice()) {
            match crate::trainer::find_form(&w.noninitial, w.initial[j2].form.as_slice())
            {
                Some(idx) => {
                    proof {
                        assert(cands@[idx as int].form@ == fseq);
                        assert(exists|a: int|
                            0 <= a < cands@.len() && cands@[a].form@ == fseq);
                    }
                },
                None => {
                    let ghost cands0 = cands@;
                    let ghost len0 = cands@.len() as int;
                    let cf = copy_bytes(w.initial[j2].form.as_slice());
                    let wgt: u128 = w.initial[j2].count as u128;
                    cands.push(Cand { form: cf, weight: wgt });
                    proof {
                        lemma_row_weight(ws, ii, fseq);
                        lemma_form_count_absent(ninit, fseq);
                        lemma_form_count_index(init, j2 as int);
                        assert(wgt as nat == form_weight(v, k, fseq));
                        assert forall|a: int|
                            0 <= a < len0 implies (#[trigger] cands@[a]).form@
                            != fseq by {
                            if a < n1g {
                                assert(cands@[a].form@ == ninit[a].form@);
                            } else {
                                let jj = choose|jj: int|
                                    0 <= jj < j2 && cands@[a].form@ == init[jj].form@;
                                assert(init[jj].form@ != init[j2 as int].form@);
                            }
                        }
                        assert forall|jj: int|
                            0 <= jj < j2 + 1 implies (#[trigger] init[jj]).form@
                            == upper_first(k) || (exists|a: int|
                            0 <= a < cands@.len() && cands@[a].form@
                                == init[jj].form@) by {
                            if jj == j2 {
                                assert(cands@[len0].form@ == fseq);
                            } else if init[jj].form@ != upper_first(k) {
                                let a = choose|a: int|
                                    0 <= a < cands0.len() && cands0[a].form@
                                        == init[jj].form@;
                                assert(cands@[a] == cands0[a]);
                            }
                        }
                    }
                },
            }
        }
        j2 = j2 + 1;
    }
    let b = best_cand(&cands, w.key.as_slice());
    form = copy_bytes(cands[b].form.as_slice());
    proof {
        let fb = cands@[b as int].form@;
        lemma_has_noninit_iff(ws, ii);
        assert(cands@[b as int].weight as nat == form_weight(v, k, fb));
        assert(form_weight(v, k, fb) > 0);
        assert forall|g: Seq<u8>| #[trigger] form_weight(v, k, g) > 0 implies (
        form_weight(v, k, g) < form_weight(v, k, fb) || (form_weight(v, k, g)
            == form_weight(v, k, fb) && pref_le(k, fb, g))) by {
            lemma_row_weight(ws, ii, g);
            if form_count(ninit, g) > 0 {
                lemma_form_count_pos(ninit, g);
                let a = choose|a: int| 0 <= a < ninit.len() && ninit[a].form@ == g;
                assert(cands@[a].form@ == g);
                assert(cands@[a].weight as nat == form_weight(v, k, g));
            } else {
                assert(g != upper_first(k) && form_count(init, g) > 0);
                lemma_form_count_pos(init, g);
                let jj = choose|jj: int| 0 <= jj < init.len() && init[jj].form@ == g;
                assert(init[jj].form@ == upper_first(k) || (exists|a: int|
                    0 <= a < cands@.len() && cands@[a].form@ == init[jj].form@));
                let a = choose|a: int|
                    0 <= a < cands@.len() && cands@[a].form@ == g;
                assert(cands@[a].weight as nat == form_weight(v, k, g));
            }
        }
        assert(is_best_weighted(v, k, fb));
        assert(exists|f: Seq<u8>| is_best_weighted(v, k, f));
        let cf2 = choose|f: Seq<u8>| is_best_weighted(v, k, f);
        lemma_best_weighted_unique(v, k, cf2, fb);
        assert(form@ == chosen(v, k));
        assert(lower_seq(form@) == k);
    }
    form
}

/// Lift a row-local best index to `is_best` over the whole statistics map.
proof fn lemma_is_best_from_row(ws: Seq<WordStats>, i: int, ini: bool, j: int)
    requires
        stats_wf(ws),
        0 <= i < ws.len(),
        0 <= j < sel(ws[i], ini).len(),
        forall|i2: int|
            0 <= i2 < sel(ws[i], ini).len() ==> #[trigger] sel(ws[i], ini)[i2].count < sel(
                ws[i],
                ini,
            )[j].count || (sel(ws[i], ini)[i2].count == sel(ws[i], ini)[j].count && pref_le(
                ws[i].key@,
                sel(ws[i], ini)[j].form@,
                sel(ws[i], ini)[i2].form@,
            )),
    ensures
        is_best(stats_map(ws), ws[i].key@, ini, sel(ws[i], ini)[j].form@),
{
    let v = stats_map(ws);
    let k = ws[i].key@;
    let fs = sel(ws[i], ini);
    let f = fs[j].form@;
    let pb = StatKey { key: k, form: f, initial: ini };
    lemma_form_count_index(fs, j);
    lemma_stats_count_index(ws, i, f, ini);
    crate::trainer::lemma_stats_map_count(ws, pb);
    assert(vcount(v, pb) == fs[j].count as nat);
    assert forall|p: StatKey|
        (#[trigger] vcount(v, p) > 0 && p.key == k && p.initial == ini) implies (vcount(v, p)
        < vcount(v, pb) || (vcount(v, p) == vcount(v, pb) && pref_le(k, f, p.form))) by {
        crate::trainer::lemma_stats_map_count(ws, p);
        lemma_stats_count_index(ws, i, p.form, ini);
        assert(p == StatKey { key: k, form: p.form, initial: ini });
        assert(form_count(fs, p.form) > 0);
        lemma_form_count_pos(fs, p.form);
        let i2 = choose|i2: int| 0 <= i2 < fs.len() && fs[i2].form@ == p.form;
        lemma_form_count_index(fs, i2);
        assert(fs[i2].count < fs[j].count || (fs[i2].count == fs[j].count && pref_le(
            k,
            f,
            fs[i2].form@,
        )));
    }
}

/// A word is known exactly when the table has a row for it.
proof fn lemma_known_iff(ws: Seq<WordStats>, k: Seq<u8>)
    requires
        stats_wf(ws),
    ensures
        known(stats_map(ws), k) <==> exists|i: int| 0 <= i < ws.len() && #[trigger] ws[i].key@ == k,
{
    let v = stats_map(ws);
    if known(v, k) {
        let p = choose|p: StatKey| #[trigger] vcount(v, p) > 0 && p.key == k;
        crate::trainer::lemma_stats_map_count(ws, p);
        lemma_stats_count_pos(ws, p);
    }
    if exists|i: int| 0 <= i < ws.len() && #[trigger] ws[i].key@ == k {
        let i = choose|i: int| 0 <= i < ws.len() && #[trigger] ws[i].key@ == k;
        let ini = !(ws[i].noninitial@.len() > 0);
        let fs = sel(ws[i], ini);
        assert(fs.len() > 0);
        lemma_form_count_index(fs, 0);
        lemma_stats_count_index(ws, i, fs[0].form@, ini);
        let p = StatKey { key: k, form: fs[0].form@, initial: ini };
        crate::trainer::lemma_stats_map_count(ws, p);
        assert(vcount(v, p) > 0 && p.key == k);
    }
}

/// A word has non-initial evidence exactly when its row's non-initial list
/// is non-empty.
proof fn lemma_has_noninit_iff(ws: Seq<WordStats>, i: int)
    requires
        stats_wf(ws),
        0 <= i < ws.len(),
    ensures
        has_noninit(stats_map(ws), ws[i].key@) <==> ws[i].noninitial@.len() > 0,
{
    let v = stats_map(ws);
    let k = ws[i].key@;
    if has_noninit(v, k) {
        let p = choose|p: StatKey| #[trigger] vcount(v, p) > 0 && p.key == k && !p.initial;
        crate::trainer::lemma_stats_map_count(ws, p);
        lemma_stats_count_index(ws, i, p.form, false);
        assert(p == StatKey { key: k, form: p.form, initial: false });
        assert(form_count(ws[i].noninitial@, p.form) > 0);
    }
    if ws[i].noninitial@.len() > 0 {
        let fs = ws[i].noninitial@;
        lemma_form_count_index(fs, 0);
        lemma_stats_count_index(ws, i, fs[0].form@, false);
        let p = StatKey { key: k, form: fs[0].form@, initial: false };
        crate::trainer::lemma_stats_map_count(ws, p);
        assert(vcount(v, p) > 0 && p.key == k && !p.initial);
    }
}

impl ModelTrainer {
    /// Freeze the statistics into the model: for every known word, the best
    /// casing-form under the decision policy.  Consumes the trainer; the
    /// result is a pure function of the statistics map.
    #[verifier::rlimit(80)]
    pub fn into_model(self) -> (r: Model)
        requires
            self.wf(),
        ensures
            r.wf(),
            r@ == model_of(self@),
    {
        let ghost v = self@;
        let ModelTrainer { words } = self;
        let ghost ws = words@;
        let mut entries: Vec<ModelEntry> = Vec::new();
        let mut i: usize = 0;
        while i < words.len()
            invariant
                i <= ws.len(),
                words@ == ws,
                stats_wf(ws),
                v == stats_map(ws),
                entries@.len() == i as int,
                forall|j: int|
                    0 <= j < i ==> #[trigger] entries@[j].key@ == ws[j].key@ && entries@[j].form@
                        == chosen(v, ws[j].key@) && lower_seq(entries@[j].form@)
                        == entries@[j].key@,
            decreases ws.len() - i,
        {
            let w = &words[i];
            let ghost k = ws[i as int].key@;
            let form: Vec<u8>;
            if w.noninitial.len() > 0 {
                form = best_weighted_form(&words, i, Ghost(ws));
            } else {
                assert(ws[i as int].initial@.len() > 0);
                let j = best_index(&w.initial, w.key.as_slice());
                let ghost fb = sel(ws[i as int], true)[j as int].form@;
                if rest_upper(w.initial[j].form.as_slice()) {
                    form = copy_bytes(w.initial[j].form.as_slice());
                    assert(form@ == fallback_form(fb));
                } else {
                    let mut t = copy_bytes(w.initial[j].form.as_slice());
                    if t.len() > 0 {
                        let b0 = t[0];
                        let lb = if 65 <= b0 && b0 <= 90 {
                            b0 + 32
                        } else {
                            b0
                        };
                        t.set(0, lb);
                    }
                    form = t;
                    proof {
                        assert(form@ =~= lower_first(fb));
                    }
                }
                proof {
                    lemma_is_best_from_row(ws, i as int, true, j as int);
                    lemma_has_noninit_iff(ws, i as int);
                    assert(!has_noninit(v, k));
                    assert(exists|f: Seq<u8>| is_best(v, k, true, f));
                    let cf = choose|f: Seq<u8>| is_best(v, k, true, f);
                    lemma_best_unique(v, k, true, cf, fb);
                    assert(form@ == chosen(v, k));
                    lemma_lower_of_lower_first(fb);
                    assert(lower_seq(form@) == k);
                }
            }
            let key = copy_bytes(w.key.as_slice());
            let ghost entries0 = entries@;
            entries.push(ModelEntry { key, form });
            proof {
                assert forall|j: int|
                    0 <= j < i + 1 implies #[trigger] entries@[j].key@ == ws[j].key@
                    && entries@[j].form@ == chosen(v, ws[j].key@) && lower_seq(entries@[j].form@)
                    == entries@[j].key@ by {
                    if j < i {
                        assert(entries@[j] == entries0[j]);
                    } else {
                        assert(entries@[j].key@ == ws[i as int].key@);
                        assert(entries@[j].form@ == form@);
                    }
                }
            }
            i = i + 1;
        }
        let r = Model { entries };
        proof {
            assert(r.wf());
            assert forall|k: Seq<u8>| #[trigger] r@.dom().contains(k) == model_of(
                v,
            ).dom().contains(k) by {
                lemma_known_iff(ws, k);
                if exists|i0: int| 0 <= i0 < ws.len() && #[trigger] ws[i0].key@ == k {
                    let i0 = choose|i0: int| 0 <= i0 < ws.len() && #[trigger] ws[i0].key@ == k;
                    assert(r.entries@[i0].key@ == k);
                    lemma_mentries_first(r.entries@, i0);
                } else {
                    assert(forall|j: int| 0 <= j < r.entries@.len() ==> r.entries@[j].key@ != k);
                    lemma_mentries_absent(r.entries@, k);
                }
            }
            assert forall|k: Seq<u8>| #[trigger] r@.dom().contains(k) implies r@[k] == model_of(
                v,
            )[k] by {
                lemma_known_iff(ws, k);
                lemma_mentries_pos(r.entries@, k);
                let i0 = choose|i0: int| 0 <= i0 < r.entries@.len() && r.entries@[i0].key@ == k;
                lemma_mentries_first(r.entries@, i0);
                assert(ws[i0].key@ == k);
            }
            assert(r@ =~= model_of(v));
        }
        r
    }
}

} // verus!
