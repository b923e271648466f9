//! Accumulating casing statistics from training sentences.
//!
//! For every distinct lowercased word the trainer counts how often each
//! surface casing-form was observed, separately for sentence-initial
//! occurrences (the first word token of a sentence) and all other
//! occurrences.  Counts only grow; the order in which sentences are added
//! does not matter.

use vstd::prelude::*;

use crate::bytes::{bytes_eq, copy_bytes};
use crate::tokenizer::{lower_seq, spec_tokenize, to_lower_bytes, tokenize, Token, TokenView, toks_view};

verus! {

/// One cell of the statistics table: a lowercased word, one of its observed
/// casing-forms, and whether the occurrence was sentence-initial.
pub ghost struct StatKey {
    pub key: Seq<u8>,
    pub form: Seq<u8>,
    pub initial: bool,
}

/// The count stored in `v` for the cell `p`, zero when absent.
pub open spec fn vcount(v: Map<StatKey, nat>, p: StatKey) -> nat {
    if v.contains_key(p) {
        v[p]
    } else {
        0
    }
}

/// Record one occurrence: the cell's count grows by one, saturating at
/// `u64::MAX` so that an executable table can hold it.
pub open spec fn bump(v: Map<StatKey, nat>, p: StatKey) -> Map<StatKey, nat> {
    if vcount(v, p) < u64::MAX {
        v.insert(p, (vcount(v, p) + 1) as nat)
    } else {
        v
    }
}

/// The statistics after recording the word tokens of `ts`, in order.  `seen`
/// tells whether a word token already occurred earlier in the sentence: the
/// first word token of a sentence counts as sentence-initial.
pub open spec fn train_toks(v: Map<StatKey, nat>, ts: Seq<TokenView>, seen: bool) -> Map<
    StatKey,
    nat,
>
    decreases ts.len(),
{
    if ts.len() == 0 {
        v
    } else {
        let t = ts.first();
        if t.word {
            train_toks(
                bump(v, StatKey { key: lower_seq(t.text), form: t.text, initial: !seen }),
                ts.drop_first(),
                true,
            )
        } else {
            train_toks(v, ts.drop_first(), seen)
        }
    }
}

/// The statistics after training on one whole sentence.
pub open spec fn train_sentence(v: Map<StatKey, nat>, s: Seq<u8>) -> Map<StatKey, nat> {
    train_toks(v, spec_tokenize(s), false)
}

/// An observed casing-form together with its occurrence count.
pub struct FormCount {
    pub form: Vec<u8>,
    pub count: u64,
}

/// All statistics recorded for one lowercased word.
pub struct WordStats {
    pub key: Vec<u8>,
    pub initial: Vec<FormCount>,
    pub noninitial: Vec<FormCount>,
}

/// The form list a cell refers to: sentence-initial or not.
pub open spec fn sel(w: WordStats, ini: bool) -> Seq<FormCount> {
    if ini {
        w.initial@
    } else {
        w.noninitial@
    }
}

/// A well-formed form list for the word `key`: forms are distinct, every
/// count is positive, and every form folds to `key`.
pub open spec fn forms_wf(key: Seq<u8>, fs: Seq<FormCount>) -> bool {
    &&& forall|i: int, j: int| 0 <= i < j < fs.len() ==> fs[i].form@ != fs[j].form@
    &&& forall|i: int| 0 <= i < fs.len() ==> fs[i].count >= 1
    &&& forall|i: int| 0 <= i < fs.len() ==> lower_seq(fs[i].form@) == key
}

/// A well-formed statistics table: keys are distinct, each word's form lists
/// are well-formed, and every word has at least one recorded occurrence.
pub open spec fn stats_wf(ws: Seq<WordStats>) -> bool {
    &&& forall|i: int, j: int| 0 <= i < j < ws.len() ==> ws[i].key@ != ws[j].key@
    &&& forall|i: int|
        0 <= i < ws.len() ==> forms_wf(ws[i].key@, ws[i].initial@) && forms_wf(
            ws[i].key@,
            ws[i].noninitial@,
        )
    &&& forall|i: int| 0 <= i < ws.len() ==> ws[i].initial@.len() + ws[i].noninitial@.len() >= 1
}

/// The count recorded for form `g` in the list `fs` (first match; zero when
/// absent).
pub open spec fn form_count(fs: Seq<FormCount>, g: Seq<u8>) -> nat
    decreases fs.len(),
{
    if fs.len() == 0 {
        0
    } else if fs.first().form@ == g {
        fs.first().count as nat
    } else {
        form_count(fs.drop_first(), g)
    }
}

/// The count recorded for the cell `p` in the table `ws`.
pub open spec fn stats_count(ws: Seq<WordStats>, p: StatKey) -> nat
    decreases ws.len(),
{
    if ws.len() == 0 {
        0
    } else if ws.first().key@ == p.key {
        form_count(sel(ws.first(), p.initial), p.form)
    } else {
        stats_count(ws.drop_first(), p)
    }
}

/// The statistics table as a mathematical map: exactly the cells with a
/// positive count.
pub open spec fn stats_map(ws: Seq<WordStats>) -> Map<StatKey, nat> {
    Map::new(|p: StatKey| stats_count(ws, p) > 0, |p: StatKey| stats_count(ws, p))
}

/// `form_count` read at an index of the list.
pub proof fn lemma_form_count_index(fs: Seq<FormCount>, j: int)
    requires
        forall|i1: int, j1: int| 0 <= i1 < j1 < fs.len() ==> fs[i1].form@ != fs[j1].form@,
        0 <= j < fs.len(),
    ensures
        form_count(fs, fs[j].form@) == fs[j].count as nat,
    decreases fs.len(),
{
    if j == 0 {
    } else {
        assert(fs.first().form@ != fs[j].form@);
        lemma_form_count_index(fs.drop_first(), j - 1);
        assert(fs.drop_first()[j - 1] == fs[j]);
    }
}

/// A form that is in no cell of the list has count zero.
pub proof fn lemma_form_count_absent(fs: Seq<FormCount>, g: Seq<u8>)
    requires
        forall|i: int| 0 <= i < fs.len() ==> fs[i].form@ != g,
    ensures
        form_count(fs, g) == 0,
    decreases fs.len(),
{
    if fs.len() > 0 {
        lemma_form_count_absent(fs.drop_first(), g);
    }
}

/// A positive count names a form that is present in the list.
pub proof fn lemma_form_count_pos(fs: Seq<FormCount>, g: Seq<u8>)
    requires
        form_count(fs, g) > 0,
    ensures
        exists|i: int| 0 <= i < fs.len() && fs[i].form@ == g,
    decreases fs.len(),
{
    if fs.len() > 0 && fs.first().form@ != g {
        lemma_form_count_pos(fs.drop_first(), g);
        let i = choose|i: int| 0 <= i < fs.drop_first().len() && fs.drop_first()[i].form@ == g;
        assert(fs[i + 1].form@ == g);
    }
}

/// `stats_count` read at an index of the table.
pub proof fn lemma_stats_count_index(ws: Seq<WordStats>, i: int, f: Seq<u8>, ini: bool)
    requires
        forall|i1: int, j1: int| 0 <= i1 < j1 < ws.len() ==> ws[i1].key@ != ws[j1].key@,
        0 <= i < ws.len(),
    ensures
        stats_count(ws, StatKey { key: ws[i].key@, form: f, initial: ini }) == form_count(
            sel(ws[i], ini),
            f,
        ),
    decreases ws.len(),
{
    if i == 0 {
    } else {
        assert(ws.first().key@ != ws[i].key@);
        lemma_stats_count_index(ws.drop_first(), i - 1, f, ini);
        assert(ws.drop_first()[i - 1] == ws[i]);
    }
}

/// A key that is in no row of the table has count zero in every cell.
pub proof fn lemma_stats_count_absent(ws: Seq<WordStats>, p: StatKey)
    requires
        forall|i: int| 0 <= i < ws.len() ==> ws[i].key@ != p.key,
    ensures
        stats_count(ws, p) == 0,
    decreases ws.len(),
{
    if ws.len() > 0 {
        lemma_stats_count_absent(ws.drop_first(), p);
    }
}

/// A positive count names a key that is present in the table.
pub proof fn lemma_stats_count_pos(ws: Seq<WordStats>, p: StatKey)
    requires
        stats_count(ws, p) > 0,
    ensures
        exists|i: int| 0 <= i < ws.len() && ws[i].key@ == p.key,
    decreases ws.len(),
{
    if ws.len() > 0 && ws.first().key@ != p.key {
        lemma_stats_count_pos(ws.drop_first(), p);
        let i = choose|i: int|
            0 <= i < ws.drop_first().len() && ws.drop_first()[i].key@ == p.key;
        assert(ws[i + 1].key@ == p.key);
    }
}

/// Replacing row `i` by a row with the same key changes exactly that key's
/// cells, to the new row's counts.
pub proof fn lemma_stats_count_update(ws: Seq<WordStats>, i: int, w2: WordStats, p: StatKey)
    requires
        forall|i1: int, j1: int| 0 <= i1 < j1 < ws.len() ==> ws[i1].key@ != ws[j1].key@,
        0 <= i < ws.len(),
        w2.key@ == ws[i].key@,
    ensures
        stats_count(ws.update(i, w2), p) == if p.key == ws[i].key@ {
            form_count(sel(w2, p.initial), p.form)
        } else {
            stats_count(ws, p)
        },
    decreases ws.len(),
{
    let ws2 = ws.update(i, w2);
    if i == 0 {
        assert(ws2.first() == w2);
        if p.key == ws[0].key@ {
        } else {
            assert(ws2.drop_first() =~= ws.drop_first());
        }
    } else {
        assert(ws2.first() == ws.first());
        assert(ws2.drop_first() =~= ws.drop_first().update(i - 1, w2));
        lemma_stats_count_update(ws.drop_first(), i - 1, w2, p);
        assert(ws.drop_first()[i - 1] == ws[i]);
    }
}

/// One occurrence more, saturating at `u64::MAX`.
pub open spec fn sat_inc(n: nat) -> nat {
    if n < u64::MAX {
        n + 1
    } else {
        n
    }
}

/// Replacing cell `j` of a form list by one with the same form changes
/// exactly that form's count.
pub proof fn lemma_form_count_update(fs: Seq<FormCount>, j: int, fc2: FormCount, g: Seq<u8>)
    requires
        forall|i1: int, j1: int| 0 <= i1 < j1 < fs.len() ==> fs[i1].form@ != fs[j1].form@,
        0 <= j < fs.len(),
        fc2.form@ == fs[j].form@,
    ensures
        form_count(fs.update(j, fc2), g) == if g == fs[j].form@ {
            fc2.count as nat
        } else {
            form_count(fs, g)
        },
    decreases fs.len(),
{
    let fs2 = fs.update(j, fc2);
    if j == 0 {
        assert(fs2.first() == fc2);
        if g == fs[0].form@ {
        } else {
            assert(fs2.drop_first() =~= fs.drop_first());
        }
    } else {
        assert(fs2.first() == fs.first());
        assert(fs2.drop_first() =~= fs.drop_first().update(j - 1, fc2));
        lemma_form_count_update(fs.drop_first(), j - 1, fc2, g);
        assert(fs.drop_first()[j - 1] == fs[j]);
    }
}

/// Appending a cell with a fresh form changes exactly that form's count.
pub proof fn lemma_form_count_push(fs: Seq<FormCount>, fc: FormCount, g: Seq<u8>)
    requires
        forall|i: int| 0 <= i < fs.len() ==> fs[i].form@ != fc.form@,
    ensures
        form_count(fs.push(fc), g) == if g == fc.form@ {
            fc.count as nat
        } else {
            form_count(fs, g)
        },
    decreases fs.len(),
{
    let fs2 = fs.push(fc);
    if fs.len() == 0 {
        assert(fs2.len() == 1);
        assert(fs2.first() == fc);
        assert(fs2.drop_first() =~= Seq::<FormCount>::empty());
        if g == fc.form@ {
            assert(form_count(fs2, g) == fc.count as nat);
        } else {
            assert(form_count(fs2.drop_first(), g) == 0);
            assert(form_count(fs2, g) == 0);
            assert(form_count(fs, g) == 0);
        }
    } else {
        assert(fs2.first() == fs.first());
        assert(fs2.drop_first() =~= fs.drop_first().push(fc));
        assert forall|i: int| 0 <= i < fs.drop_first().len() implies fs.drop_first()[i].form@
            != fc.form@ by {
            assert(fs.drop_first()[i] == fs[i + 1]);
        }
        lemma_form_count_push(fs.drop_first(), fc, g);
        if fs.first().form@ == g {
            assert(form_count(fs2, g) == fs.first().count as nat);
            assert(form_count(fs, g) == fs.first().count as nat);
            assert(g != fc.form@);
        } else {
            assert(form_count(fs2, g) == form_count(fs2.drop_first(), g));
            assert(form_count(fs, g) == form_count(fs.drop_first(), g));
        }
    }
}

/// Appending a row with a fresh key changes exactly that key's cells.
pub proof fn lemma_stats_count_push(ws: Seq<WordStats>, w2: WordStats, p: StatKey)
    requires
        forall|i: int| 0 <= i < ws.len() ==> ws[i].key@ != w2.key@,
    ensures
        stats_count(ws.push(w2), p) == if p.key == w2.key@ {
            form_count(sel(w2, p.initial), p.form)
        } else {
            stats_count(ws, p)
        },
    decreases ws.len(),
{
    let ws2 = ws.push(w2);
    if ws.len() == 0 {
        assert(ws2.first() == w2);
        assert(ws2.drop_first() =~= Seq::<WordStats>::empty());
        if p.key != w2.key@ {
            assert(stats_count(ws2.drop_first(), p) == 0);
        }
    } else {
        assert(ws2.first() == ws.first());
        assert(ws2.drop_first() =~= ws.drop_first().push(w2));
        lemma_stats_count_push(ws.drop_first(), w2, p);
    }
}

/// Reading the map of a table gives the table's counts.
pub proof fn lemma_stats_map_count(ws: Seq<WordStats>, p: StatKey)
    ensures
        vcount(stats_map(ws), p) == stats_count(ws, p),
{
}

/// `bump` pointwise: the bumped cell grows by one (saturating), all other
/// cells keep their count.
pub proof fn lemma_bump_vcount(v: Map<StatKey, nat>, p: StatKey, q: StatKey)
    ensures
        vcount(bump(v, p), q) == if q == p {
            sat_inc(vcount(v, p))
        } else {
            vcount(v, q)
        },
{
}

/// Find the row of a key, if any.
fn find_word(words: &Vec<WordStats>, key: &[u8]) -> (r: Option<usize>)
    ensures
        match r {
            Some(i) => i < words@.len() && words@[i as int].key@ == key@,
            None => forall|i: int| 0 <= i < words@.len() ==> words@[i].key@ != key@,
        },
{
    let mut i: usize = 0;
    while i < words.len()
        invariant
            i <= words@.len(),
            forall|j: int| 0 <= j < i ==> words@[j].key@ != key@,
        decreases words@.len() - i,
    {
        if bytes_eq(words[i].key.as_slice(), key) {
            return Some(i);
        }
        i = i + 1;
    }
    None
}

/// Find the cell of a form, if any.
pub(crate) fn find_form(fs: &Vec<FormCount>, form: &[u8]) -> (r: Option<usize>)
    ensures
        match r {
            Some(j) => j < fs@.len() && fs@[j as int].form@ == form@,
            None => forall|i: int| 0 <= i < fs@.len() ==> fs@[i].form@ != form@,
        },
{
    let mut i: usize = 0;
    while i < fs.len()
        invariant
            i <= fs@.len(),
            forall|j: int| 0 <= j < i ==> fs@[j].form@ != form@,
        decreases fs@.len() - i,
    {
        if bytes_eq(fs[i].form.as_slice(), form) {
            return Some(i);
        }
        i = i + 1;
    }
    None
}

/// Record one occurrence of `form` in a form list: its count grows by one
/// (saturating), all other counts stay.
fn bump_form(fs: &mut Vec<FormCount>, form: &[u8], Ghost(key): Ghost<Seq<u8>>)
    requires
        forms_wf(key, old(fs)@),
        lower_seq(form@) == key,
    ensures
        forms_wf(key, final(fs)@),
        final(fs)@.len() >= 1,
        forall|g: Seq<u8>|
            form_count(final(fs)@, g) == if g == form@ {
                sat_inc(form_count(old(fs)@, g))
            } else {
                form_count(old(fs)@, g)
            },
{
    let ghost fs0 = fs@;
    match find_form(fs, form) {
        Some(j) => {
            let mut fc = fs.remove(j);
            let ghost c0 = fc.count;
            if fc.count < u64::MAX {
                fc.count = fc.count + 1;
            }
            let ghost fc2 = fc;
            fs.insert(j, fc);
            proof {
                assert(fs@ =~= fs0.update(j as int, fc2));
                lemma_form_count_index(fs0, j as int);
                assert forall|g: Seq<u8>|
                    form_count(fs@, g) == if g == form@ {
                        sat_inc(form_count(fs0, g))
                    } else {
                        form_count(fs0, g)
                    } by {
                    lemma_form_count_update(fs0, j as int, fc2, g);
                }
            }
        },
        None => {
            let fc = FormCount { form: copy_bytes(form), count: 1 };
            let ghost fc2 = fc;
            fs.push(fc);
            proof {
                assert(fs@ =~= fs0.push(fc2));
                assert forall|g: Seq<u8>|
                    form_count(fs@, g) == if g == form@ {
                        sat_inc(form_count(fs0, g))
                    } else {
                        form_count(fs0, g)
                    } by {
                    lemma_form_count_push(fs0, fc2, g);
                    if g == form@ {
                        lemma_form_count_absent(fs0, g);
                    }
                }
            }
        },
    }
}

/// The statistics accumulator.  It owns the casing statistics exclusively
/// while training; `Model::from_trainer` consumes it to freeze them.
pub struct ModelTrainer {
    pub words: Vec<WordStats>,
}

impl View for ModelTrainer {
    type V = Map<StatKey, nat>;

    open spec fn view(&self) -> Map<StatKey, nat> {
        stats_map(self.words@)
    }
}

impl ModelTrainer {
    /// The representation invariant of the statistics table.
    pub open spec fn wf(&self) -> bool {
        stats_wf(self.words@)
    }

    /// A trainer with no evidence yet.
    pub fn new() -> (r: ModelTrainer)
        ensures
            r.wf(),
            r@ == Map::<StatKey, nat>::empty(),
    {
        let t = ModelTrainer { words: Vec::new() };
        proof {
            assert(t@ =~= Map::<StatKey, nat>::empty());
        }
        t
    }

    /// Record one occurrence of the casing-form `form` (whose lowercase fold
    /// is `key_low`) at a sentence-initial or non-initial position.
    fn record(&mut self, key_low: Vec<u8>, form: &[u8], initial: bool)
        requires
            old(self).wf(),
            lower_seq(form@) == key_low@,
        ensures
            final(self).wf(),
            final(self)@ == bump(
                old(self)@,
                StatKey { key: key_low@, form: form@, initial: initial },
            ),
    {
        let ghost ws0 = self.words@;
        let ghost p = StatKey { key: key_low@, form: form@, initial: initial };
        let ghost v0 = stats_map(ws0);
        match find_word(&self.words, key_low.as_slice()) {
            Some(i) => {
                let mut w = self.words.remove(i);
                let ghost w0 = w;
                if initial {
                    bump_form(&mut w.initial, form, Ghost(key_low@));
                } else {
                    bump_form(&mut w.noninitial, form, Ghost(key_low@));
                }
                let ghost w2 = w;
                self.words.insert(i, w);
                proof {
                    assert(self.words@ =~= ws0.update(i as int, w2));
                    assert(stats_wf(self.words@));
                    assert forall|q: StatKey|
                        stats_count(self.words@, q) == if q == p {
                            sat_inc(stats_count(ws0, q))
                        } else {
                            stats_count(ws0, q)
                        } by {
                        lemma_stats_count_update(ws0, i as int, w2, q);
                        if q.key == key_low@ {
                            lemma_stats_count_index(ws0, i as int, q.form, q.initial);
                        }
                    }
                    assert forall|q: StatKey| #[trigger] vcount(self@, q) == vcount(bump(v0, p), q)
                        by {
                        lemma_stats_map_count(self.words@, q);
                        lemma_stats_map_count(ws0, q);
                        lemma_bump_vcount(v0, p, q);
                    }
                    assert(self@ =~= bump(v0, p)) by {
                        assert forall|q: StatKey| self@.contains_key(q)
                            == bump(v0, p).contains_key(q) && (self@.contains_key(q)
                            ==> self@[q] == bump(v0, p)[q]) by {
                            assert(vcount(self@, q) == vcount(bump(v0, p), q));
                            lemma_stats_map_count(self.words@, q);
                            lemma_stats_map_count(ws0, q);
                            lemma_bump_vcount(v0, p, q);
                        }
                    }
                }
            },
            None => {
                let ghost kl = key_low@;
                let mut w = WordStats { key: key_low, initial: Vec::new(), noninitial: Vec::new() };
                if initial {
                    bump_form(&mut w.initial, form, Ghost(kl));
                } else {
                    bump_form(&mut w.noninitial, form, Ghost(kl));
                }
                let ghost w2 = w;
                self.words.push(w);
                proof {
                    assert(self.words@ =~= ws0.push(w2));
                    assert(stats_wf(self.words@));
                    assert forall|q: StatKey|
                        stats_count(self.words@, q) == if q == p {
                            sat_inc(stats_count(ws0, q))
                        } else {
                            stats_count(ws0, q)
                        } by {
                        lemma_stats_count_push(ws0, w2, q);
                        if q.key == kl {
                            lemma_stats_count_absent(ws0, q);
                        }
                    }
                    assert(self@ =~= bump(v0, p)) by {
                        assert forall|q: StatKey| self@.contains_key(q)
                            == bump(v0, p).contains_key(q) && (self@.contains_key(q)
                            ==> self@[q] == bump(v0, p)[q]) by {
                            lemma_stats_map_count(self.words@, q);
                            lemma_stats_map_count(ws0, q);
                            lemma_bump_vcount(v0, p, q);
                        }
                    }
                }
            },
        }
    }

    /// Train on one sentence: the first word token counts as
    /// sentence-initial, every later word token as non-initial.  Always
    /// succeeds; an empty sentence changes nothing.
    pub fn add_sentence(&mut self, s: &[u8])
        requires
            old(self).wf(),
        ensures
            final(self).wf(),
            final(self)@ == train_sentence(old(self)@, s@),
    {
        let toks = tokenize(s);
        let ghost tv = spec_tokenize(s@);
        let ghost v0 = self@;
        let mut seen = false;
        let mut i: usize = 0;
        proof {
            assert(tv.skip(0) =~= tv);
        }
        while i < toks.len()
            invariant
                i <= toks@.len(),
                toks_view(toks@) == tv,
                self.wf(),
                train_toks(self@, tv.skip(i as int), seen) == train_toks(v0, tv, false),
            decreases toks@.len() - i,
        {
            let ghost rest = tv.skip(i as int);
            proof {
                assert(rest.first() == tv[i as int]);
                assert(rest.drop_first() =~= tv.skip(i as int + 1));
                assert(toks@[i as int]@ == tv[i as int]);
            }
            match &toks[i] {
                Token::Word(text) => {
                    let low = to_lower_bytes(text.as_slice());
                    self.record(low, text.as_slice(), !seen);
                    seen = true;
                },
                Token::Separator(_) => {
                    assert(!tv[i as int].word);
                },
            }
            i = i + 1;
        }
        proof {
            assert(tv.skip(tv.len() as int) =~= Seq::<TokenView>::empty());
        }
    }
}

/// `bump` operations on different cells commute, and on the same cell order
/// does not matter either.
pub proof fn lemma_bump_commute(v: Map<StatKey, nat>, p: StatKey, q: StatKey)
    ensures
        bump(bump(v, p), q) == bump(bump(v, q), p),
{
    if p != q {
        lemma_bump_vcount(v, p, q);
        lemma_bump_vcount(v, q, p);
        lemma_bump_vcount(bump(v, p), q, p);
        lemma_bump_vcount(bump(v, q), p, q);
        assert forall|r: StatKey| #[trigger] vcount(bump(bump(v, p), q), r) == vcount(
            bump(bump(v, q), p),
            r,
        ) by {
            lemma_bump_vcount(v, p, r);
            lemma_bump_vcount(v, q, r);
            lemma_bump_vcount(bump(v, p), q, r);
            lemma_bump_vcount(bump(v, q), p, r);
        }
        assert(bump(bump(v, p), q) =~= bump(bump(v, q), p)) by {
            assert forall|r: StatKey| bump(bump(v, p), q).contains_key(r) == bump(
                bump(v, q),
                p,
            ).contains_key(r) && (bump(bump(v, p), q).contains_key(r) ==> bump(bump(v, p), q)[r]
                == bump(bump(v, q), p)[r]) by {
                assert(vcount(bump(bump(v, p), q), r) == vcount(bump(bump(v, q), p), r));
                lemma_bump_vcount(bump(v, p), q, r);
                lemma_bump_vcount(bump(v, q), p, r);
                lemma_bump_vcount(v, p, r);
                lemma_bump_vcount(v, q, r);
            }
        }
    }
}

/// A `bump` commutes past training a whole token sequence.
pub proof fn lemma_train_toks_bump(v: Map<StatKey, nat>, p: StatKey, ts: Seq<TokenView>, seen: bool)
    ensures
        train_toks(bump(v, p), ts, seen) == bump(train_toks(v, ts, seen), p),
    decreases ts.len(),
{
    if ts.len() > 0 {
        let t = ts.first();
        if t.word {
            let p0 = StatKey { key: lower_seq(t.text), form: t.text, initial: !seen };
            lemma_bump_commute(v, p, p0);
            lemma_train_toks_bump(bump(v, p0), p, ts.drop_first(), true);
        } else {
            lemma_train_toks_bump(v, p, ts.drop_first(), seen);
        }
    }
}

/// Training on two token sequences commutes.
pub proof fn lemma_train_toks_comm(
    v: Map<StatKey, nat>,
    ta: Seq<TokenView>,
    sa: bool,
    tb: Seq<TokenView>,
    sb: bool,
)
    ensures
        train_toks(train_toks(v, ta, sa), tb, sb) == train_toks(train_toks(v, tb, sb), ta, sa),
    decreases ta.len(),
{
    if ta.len() > 0 {
        let t = ta.first();
        if t.word {
            let p = StatKey { key: lower_seq(t.text), form: t.text, initial: !sa };
            lemma_train_toks_comm(bump(v, p), ta.drop_first(), true, tb, sb);
            lemma_train_toks_bump(train_toks(v, tb, sb), p, ta.drop_first(), true);
            lemma_train_toks_bump(v, p, tb, sb);
        } else {
            lemma_train_toks_comm(v, ta.drop_first(), sa, tb, sb);
        }
    }
}

/// Training order does not matter: training on sentence `a` and then `b`
/// leaves exactly the statistics of training on `b` and then `a`.
pub proof fn lemma_training_order_irrelevant(v: Map<StatKey, nat>, a: Seq<u8>, b: Seq<u8>)
    ensures
        train_sentence(train_sentence(v, a), b) == train_sentence(train_sentence(v, b), a),
{
    lemma_train_toks_comm(v, spec_tokenize(a), false, spec_tokenize(b), false);
}

} // verus!
