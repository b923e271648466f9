//! Splitting a sentence into maximal runs of word bytes and separator bytes.
//!
//! The token sequence reconstructs the input exactly when concatenated, so a
//! decoder may recase word tokens and reassemble the sentence byte for byte.

use vstd::prelude::*;

verus! {

/// A byte that belongs to a word token: ASCII letters, ASCII digits, the
/// apostrophe (so contractions such as "don't" stay one token), and every
/// byte above 127, so that multi-byte UTF-8 characters stay inside one token.
pub open spec fn is_word_byte(b: u8) -> bool {
    (97 <= b && b <= 122) || (65 <= b && b <= 90) || (48 <= b && b <= 57) || b == 39 || b >= 128
}

/// Executable mirror of `is_word_byte`.
pub fn word_byte(b: u8) -> (r: bool)
    ensures
        r == is_word_byte(b),
{
    (97 <= b && b <= 122) || (65 <= b && b <= 90) || (48 <= b && b <= 57) || b == 39 || b >= 128
}

/// Fold one byte to lowercase: ASCII uppercase letters move to lowercase,
/// everything else is unchanged.
pub open spec fn lower_byte(b: u8) -> u8 {
    if 65 <= b && b <= 90 {
        (b + 32) as u8
    } else {
        b
    }
}

/// Raise one byte to uppercase: ASCII lowercase letters move to uppercase,
/// everything else is unchanged.
pub open spec fn upper_byte(b: u8) -> u8 {
    if 97 <= b && b <= 122 {
        (b - 32) as u8
    } else {
        b
    }
}

/// Fold a whole byte sequence to lowercase.
pub open spec fn lower_seq(s: Seq<u8>) -> Seq<u8> {
    s.map_values(|b: u8| lower_byte(b))
}

/// Executable lowercase fold.
pub fn to_lower_bytes(s: &[u8]) -> (r: Vec<u8>)
    ensures
        r@ == lower_seq(s@),
{
    let mut out: Vec<u8> = Vec::new();
    let mut i: usize = 0;
    while i < s.len()
        invariant
            i <= s.len(),
            out@ =~= lower_seq(s@).take(i as int),
        decreases s.len() - i,
    {
        let b = s[i];
        if 65 <= b && b <= 90 {
            out.push(b + 32);
        } else {
            out.push(b);
        }
        i = i + 1;
    }
    assert(lower_seq(s@).take(s@.len() as int) =~= lower_seq(s@));
    out
}

/// One token of a sentence: a maximal run of word bytes, or a maximal run of
/// separator bytes (whitespace, punctuation, and other non-word characters).
pub enum Token {
    Word(Vec<u8>),
    Separator(Vec<u8>),
}

/// The mathematical shape of a token: its kind and its text.
pub ghost struct TokenView {
    pub word: bool,
    pub text: Seq<u8>,
}

impl View for Token {
    type V = TokenView;

    open spec fn view(&self) -> TokenView {
        match self {
            Token::Word(v) => TokenView { word: true, text: v@ },
            Token::Separator(v) => TokenView { word: false, text: v@ },
        }
    }
}

/// View of a whole token vector.
pub open spec fn toks_view(ts: Seq<Token>) -> Seq<TokenView> {
    ts.map_values(|t: Token| t@)
}

/// The token sequence of a sentence, built byte by byte: each byte either
/// extends the last token (same kind) or opens a new one.
pub open spec fn spec_tokenize(s: Seq<u8>) -> Seq<TokenView>
    decreases s.len(),
{
    if s.len() == 0 {
        Seq::empty()
    } else {
        let prefix = spec_tokenize(s.drop_last());
        let b = s.last();
        if prefix.len() > 0 && prefix.last().word == is_word_byte(b) {
            prefix.update(
                prefix.len() - 1,
                TokenView { word: prefix.last().word, text: prefix.last().text.push(b) },
            )
        } else {
            prefix.push(TokenView { word: is_word_byte(b), text: seq![b] })
        }
    }
}

/// Concatenation of the texts of a token sequence.
pub open spec fn spec_concat(ts: Seq<TokenView>) -> Seq<u8>
    decreases ts.len(),
{
    if ts.len() == 0 {
        Seq::empty()
    } else {
        spec_concat(ts.drop_last()) + ts.last().text
    }
}

/// Round trip of the tokenizer: concatenating all token texts, in order,
/// reproduces the input exactly.
pub proof fn lemma_tokenize_roundtrip(s: Seq<u8>)
    ensures
        spec_concat(spec_tokenize(s)) == s,
    decreases s.len(),
{
    if s.len() == 0 {
        assert(spec_concat(spec_tokenize(s)) =~= s);
    } else {
        lemma_tokenize_roundtrip(s.drop_last());
        let prefix = spec_tokenize(s.drop_last());
        let b = s.last();
        if prefix.len() > 0 && prefix.last().word == is_word_byte(b) {
            let upd = prefix.update(
                prefix.len() - 1,
                TokenView { word: prefix.last().word, text: prefix.last().text.push(b) },
            );
            assert(upd.drop_last() =~= prefix.drop_last());
            assert(spec_concat(upd) == spec_concat(prefix.drop_last()) + prefix.last().text.push(b));
            assert(spec_concat(prefix.drop_last()) + prefix.last().text.push(b)
                =~= (spec_concat(prefix.drop_last()) + prefix.last().text) + seq![b]);
            assert(spec_concat(prefix) + seq![b] =~= s.drop_last().push(b));
            assert(s.drop_last().push(b) =~= s);
        } else {
            let pushed = prefix.push(TokenView { word: is_word_byte(b), text: seq![b] });
            assert(pushed.drop_last() =~= prefix);
            assert(spec_concat(pushed) == spec_concat(prefix) + seq![b]);
            assert(spec_concat(prefix) + seq![b] =~= s.drop_last().push(b));
            assert(s.drop_last().push(b) =~= s);
        }
    }
}

/// Word-byte membership does not depend on letter case.
pub proof fn lemma_word_byte_case(b: u8)
    ensures
        is_word_byte(lower_byte(b)) == is_word_byte(b),
        is_word_byte(upper_byte(b)) == is_word_byte(b),
{
}

/// A well-formed token sequence: no token is empty, a token's bytes all
/// match its kind, and adjacent tokens alternate in kind — exactly the shape
/// the tokenizer produces.
pub open spec fn wf_tokens(ts: Seq<TokenView>) -> bool {
    &&& forall|i: int| 0 <= i < ts.len() ==> #[trigger] ts[i].text.len() > 0
    &&& forall|i: int, j: int|
        0 <= i < ts.len() && 0 <= j < ts[i].text.len() ==> is_word_byte(#[trigger] ts[i].text[j])
            == ts[i].word
    &&& forall|i: int| 0 <= i < ts.len() - 1 ==> ts[i].word != #[trigger] ts[i + 1].word
}

/// The tokenizer produces well-formed token sequences.
pub proof fn lemma_tokenize_wf(s: Seq<u8>)
    ensures
        wf_tokens(spec_tokenize(s)),
    decreases s.len(),
{
    if s.len() > 0 {
        lemma_tokenize_wf(s.drop_last());
        let prefix = spec_tokenize(s.drop_last());
        let b = s.last();
        let ts = spec_tokenize(s);
        if prefix.len() > 0 && prefix.last().word == is_word_byte(b) {
            let n = prefix.len() - 1;
            assert forall|i: int, j: int|
                0 <= i < ts.len() && 0 <= j < ts[i].text.len() implies is_word_byte(
                #[trigger] ts[i].text[j],
            ) == ts[i].word by {
                if i < n {
                    assert(ts[i] == prefix[i]);
                } else {
                    assert(ts[i].text == prefix.last().text.push(b));
                }
            }
            assert forall|i: int| 0 <= i < ts.len() - 1 implies ts[i].word != #[trigger] ts[i
                + 1].word by {
                assert(prefix[i].word != prefix[i + 1].word);
            }
        }
    }
}

/// Appending a run of bytes of one kind, after tokens that do not end in
/// that kind, appends exactly one token.
proof fn lemma_tokenize_run(u: Seq<u8>, t: Seq<u8>, w: bool)
    requires
        t.len() > 0,
        forall|j: int| 0 <= j < t.len() ==> is_word_byte(#[trigger] t[j]) == w,
        spec_tokenize(u).len() == 0 || spec_tokenize(u).last().word != w,
    ensures
        spec_tokenize(u + t) == spec_tokenize(u).push(TokenView { word: w, text: t }),
    decreases t.len(),
{
    let ts0 = spec_tokenize(u);
    if t.len() == 1 {
        assert(u + t =~= u.push(t[0]));
        assert((u.push(t[0])).drop_last() =~= u);
        assert((u.push(t[0])).last() == t[0]);
        assert(is_word_byte(t[0]) == w);
        assert(spec_tokenize(u.push(t[0])) == ts0.push(
            TokenView { word: w, text: seq![t[0]] },
        ));
        assert(seq![t[0]] =~= t);
    } else {
        lemma_tokenize_run(u, t.drop_last(), w);
        let v = u + t.drop_last();
        let ts1 = ts0.push(TokenView { word: w, text: t.drop_last() });
        assert(spec_tokenize(v) == ts1);
        assert(u + t =~= v.push(t.last()));
        assert((v.push(t.last())).drop_last() =~= v);
        assert((v.push(t.last())).last() == t.last());
        assert(is_word_byte(t.last()) == w);
        assert(ts1.len() > 0 && ts1.last().word == w);
        assert(spec_tokenize(v.push(t.last())) == ts1.update(
            ts1.len() - 1,
            TokenView { word: w, text: ts1.last().text.push(t.last()) },
        ));
        assert(ts1.last().text.push(t.last()) =~= t);
        assert(ts1.update(ts1.len() - 1, TokenView { word: w, text: t }) =~= ts0.push(
            TokenView { word: w, text: t },
        ));
    }
}

/// Tokenizing the concatenation of a well-formed token sequence gives that
/// sequence back: the tokenizer inverts reassembly.
pub proof fn lemma_tokenize_inverse(ts: Seq<TokenView>)
    requires
        wf_tokens(ts),
    ensures
        spec_tokenize(spec_concat(ts)) == ts,
    decreases ts.len(),
{
    if ts.len() == 0 {
        assert(spec_concat(ts) =~= Seq::<u8>::empty());
        assert(spec_tokenize(spec_concat(ts)) =~= ts);
    } else {
        let pre = ts.drop_last();
        assert forall|i: int, j: int|
            0 <= i < pre.len() && 0 <= j < pre[i].text.len() implies is_word_byte(
            #[trigger] pre[i].text[j],
        ) == pre[i].word by {
            assert(pre[i] == ts[i]);
        }
        assert forall|i: int| 0 <= i < pre.len() implies #[trigger] pre[i].text.len() > 0 by {
            assert(pre[i] == ts[i]);
        }
        assert forall|i: int| 0 <= i < pre.len() - 1 implies pre[i].word != #[trigger] pre[i
            + 1].word by {
            assert(pre[i] == ts[i] && pre[i + 1] == ts[i + 1]);
        }
        lemma_tokenize_inverse(pre);
        let last = ts.last();
        if pre.len() > 0 {
            assert(pre.last() == ts[ts.len() - 2]);
            assert(last == ts[ts.len() - 2 + 1]);
            assert(pre.last().word != last.word);
        }
        lemma_tokenize_run(spec_concat(pre), last.text, last.word);
        assert(spec_concat(ts) == spec_concat(pre) + last.text);
        assert(pre.push(last) =~= ts);
    }
}

/// Split a sentence into its tokens.
pub fn tokenize(s: &[u8]) -> (r: Vec<Token>)
    ensures
        toks_view(r@) == spec_tokenize(s@),
{
    let mut toks: Vec<Token> = Vec::new();
    let mut i: usize = 0;
    while i < s.len()
        invariant
            i <= s.len(),
            toks_view(toks@) == spec_tokenize(s@.take(i as int)),
        decreases s.len() - i,
    {
        let ghost pre = s@.take(i as int);
        assert(s@.take(i as int + 1).drop_last() =~= pre);
        assert(s@.take(i as int + 1).last() == s@[i as int]);
        let b = s[i];
        let w = word_byte(b);
        let n = toks.len();
        let mut extend = false;
        if n > 0 {
            let lw = match &toks[n - 1] {
                Token::Word(_) => true,
                Token::Separator(_) => false,
            };
            assert(toks_view(toks@).last().word == lw);
            if lw == w {
                extend = true;
            }
        }
        if extend {
            let t = match toks.pop() {
                Some(t) => t,
                None => Token::Separator(Vec::new()),
            };
            let t2 = match t {
                Token::Word(mut v) => {
                    v.push(b);
                    Token::Word(v)
                },
                Token::Separator(mut v) => {
                    v.push(b);
                    Token::Separator(v)
                },
            };
            toks.push(t2);
            assert(toks_view(toks@) =~= spec_tokenize(s@.take(i as int + 1)));
        } else {
            if w {
                let mut v: Vec<u8> = Vec::new();
                v.push(b);
                toks.push(Token::Word(v));
            } else {
                let mut v: Vec<u8> = Vec::new();
                v.push(b);
                toks.push(Token::Separator(v));
            }
            assert(toks_view(toks@) =~= spec_tokenize(s@.take(i as int + 1)));
        }
        i = i + 1;
    }
    assert(s@.take(s@.len() as int) =~= s@);
    toks
}

} // verus!
