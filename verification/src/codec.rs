//! Persistence of a model as bytes.
//!
//! The layout is a flat sequence of entries, each a length-prefixed
//! lowercased key followed by its length-prefixed casing-form; lengths are
//! 64-bit little-endian.  Loading validates everything the model's invariant
//! needs — distinct keys and forms that fold back to their key — so a loaded
//! model behaves exactly like the saved one, and malformed bytes are always
//! rejected.

use vstd::prelude::*;

use crate::bytes::{bytes_eq, copy_bytes};
use crate::model::{mentries_at, mentries_has, Model, ModelEntry};
use crate::tokenizer::{lower_seq, to_lower_bytes};

verus! {

/// Loading failed: the bytes are not a well-formed model record.
#[derive(Clone, Copy, Debug, PartialEq, Eq)]
pub enum SerializationError {
    Malformed,
}

/// A 64-bit number as 8 little-endian bytes.
pub open spec fn enc_u64(n: u64) -> Seq<u8> {
    seq![
        (n & 0xff) as u8,
        ((n >> 8) & 0xff) as u8,
        ((n >> 16) & 0xff) as u8,
        ((n >> 24) & 0xff) as u8,
        ((n >> 32) & 0xff) as u8,
        ((n >> 40) & 0xff) as u8,
        ((n >> 48) & 0xff) as u8,
        ((n >> 56) & 0xff) as u8,
    ]
}

/// The number held by 8 little-endian bytes.
pub open spec fn dec_u64(b: Seq<u8>) -> u64
    recommends
        b.len() == 8,
{
    (b[0] as u64) | ((b[1] as u64) << 8) | ((b[2] as u64) << 16) | ((b[3] as u64) << 24) | ((
    b[4] as u64) << 32) | ((b[5] as u64) << 40) | ((b[6] as u64) << 48) | ((b[7] as u64) << 56)
}

/// Decoding undoes encoding of a 64-bit number.
pub proof fn lemma_dec_enc_u64(n: u64)
    ensures
        enc_u64(n).len() == 8,
        dec_u64(enc_u64(n)) == n,
{
    let b = enc_u64(n);
    let b0 = b[0];
    let b1 = b[1];
    let b2 = b[2];
    let b3 = b[3];
    let b4 = b[4];
    let b5 = b[5];
    let b6 = b[6];
    let b7 = b[7];
    assert((b0 as u64) | ((b1 as u64) << 8) | ((b2 as u64) << 16) | ((b3 as u64) << 24) | ((
    b4 as u64) << 32) | ((b5 as u64) << 40) | ((b6 as u64) << 48) | ((b7 as u64) << 56) == n)
        by (bit_vector)
        requires
            b0 == (n & 0xff) as u8,
            b1 == ((n >> 8) & 0xff) as u8,
            b2 == ((n >> 16) & 0xff) as u8,
            b3 == ((n >> 24) & 0xff) as u8,
            b4 == ((n >> 32) & 0xff) as u8,
            b5 == ((n >> 40) & 0xff) as u8,
            b6 == ((n >> 48) & 0xff) as u8,
            b7 == ((n >> 56) & 0xff) as u8,
    ;
}

/// The entries of a model as plain pairs (key, form).
pub open spec fn model_pairs(es: Seq<ModelEntry>) -> Seq<(Seq<u8>, Seq<u8>)> {
    es.map_values(|e: ModelEntry| (e.key@, e.form@))
}

/// One encoded entry: length-prefixed key, then length-prefixed form.
pub open spec fn enc_entry(e: (Seq<u8>, Seq<u8>)) -> Seq<u8> {
    enc_u64(e.0.len() as u64) + e.0 + enc_u64(e.1.len() as u64) + e.1
}

/// The encoded byte stream of a pair sequence.
pub open spec fn enc_pairs(es: Seq<(Seq<u8>, Seq<u8>)>) -> Seq<u8>
    decreases es.len(),
{
    if es.len() == 0 {
        Seq::empty()
    } else {
        enc_entry(es.first()) + enc_pairs(es.drop_first())
    }
}

/// Parse a byte stream into pairs; `None` when the bytes are malformed
/// (truncated length prefix or truncated data).
pub open spec fn dec_pairs(b: Seq<u8>) -> Option<Seq<(Seq<u8>, Seq<u8>)>>
    decreases b.len(),
{
    if b.len() == 0 {
        Some(Seq::empty())
    } else if b.len() < 8 {
        None
    } else {
        let klen = dec_u64(b.take(8)) as int;
        if b.len() < 8 + klen {
            None
        } else {
            let key = b.subrange(8, 8 + klen);
            let b2 = b.skip(8 + klen);
            if b2.len() < 8 {
                None
            } else {
                let flen = dec_u64(b2.take(8)) as int;
                if b2.len() < 8 + flen {
                    None
                } else {
                    let form = b2.subrange(8, 8 + flen);
                    match dec_pairs(b2.skip(8 + flen)) {
                        Option::None => None,
                        Option::Some(rest) => Some(seq![(key, form)] + rest),
                    }
                }
            }
        }
    }
}

/// What the model's invariant asks of loaded pairs: distinct keys, and every
/// form folds back to its key.
pub open spec fn pairs_wf(es: Seq<(Seq<u8>, Seq<u8>)>) -> bool {
    &&& forall|i: int, j: int| 0 <= i < j < es.len() ==> es[i].0 != es[j].0
    &&& forall|i: int| 0 <= i < es.len() ==> lower_seq(es[i].1) == es[i].0
}

/// The complete load specification: the bytes parse, and the parsed pairs
/// satisfy the model invariant.
pub open spec fn dec_model(b: Seq<u8>) -> Option<Seq<(Seq<u8>, Seq<u8>)>> {
    match dec_pairs(b) {
        Option::None => None,
        Option::Some(es) => if pairs_wf(es) {
            Some(es)
        } else {
            None
        },
    }
}

/// Append the encoding of a 64-bit number.
fn push_u64(out: &mut Vec<u8>, n: u64)
    ensures
        final(out)@ == old(out)@ + enc_u64(n),
{
    out.push((n & 0xff) as u8);
    out.push(((n >> 8) & 0xff) as u8);
    out.push(((n >> 16) & 0xff) as u8);
    out.push(((n >> 24) & 0xff) as u8);
    out.push(((n >> 32) & 0xff) as u8);
    out.push(((n >> 40) & 0xff) as u8);
    out.push(((n >> 48) & 0xff) as u8);
    out.push(((n >> 56) & 0xff) as u8);
    assert(out@ =~= old(out)@ + enc_u64(n));
}

/// Read the 64-bit number at `pos`.
fn get_u64(data: &[u8], pos: usize) -> (r: u64)
    requires
        pos + 8 <= data@.len(),
    ensures
        r == dec_u64(data@.subrange(pos as int, pos as int + 8)),
{
    let r = (data[pos] as u64) | ((data[pos + 1] as u64) << 8) | ((data[pos + 2] as u64) << 16) | ((
    data[pos + 3] as u64) << 24) | ((data[pos + 4] as u64) << 32) | ((data[pos + 5] as u64) << 40)
        | ((data[pos + 6] as u64) << 48) | ((data[pos + 7] as u64) << 56);
    proof {
        let sub = data@.subrange(pos as int, pos as int + 8);
        assert(sub[0] == data@[pos as int]);
        assert(sub[1] == data@[pos as int + 1]);
        assert(sub[2] == data@[pos as int + 2]);
        assert(sub[3] == data@[pos as int + 3]);
        assert(sub[4] == data@[pos as int + 4]);
        assert(sub[5] == data@[pos as int + 5]);
        assert(sub[6] == data@[pos as int + 6]);
        assert(sub[7] == data@[pos as int + 7]);
    }
    r
}

/// Copy `data[start..end]` into a fresh vector.
fn copy_range(data: &[u8], start: usize, end: usize) -> (r: Vec<u8>)
    requires
        start <= end <= data@.len(),
    ensures
        r@ == data@.subrange(start as int, end as int),
{
    let mut out: Vec<u8> = Vec::new();
    let mut i: usize = start;
    while i < end
        invariant
            start <= i <= end <= data@.len(),
            out@ =~= data@.subrange(start as int, i as int),
        decreases end - i,
    {
        out.push(data[i]);
        assert(out@ =~= data@.subrange(start as int, i as int + 1));
        i = i + 1;
    }
    out
}

/// Appending one pair extends the encoding at the end.
pub proof fn lemma_enc_pairs_snoc(es: Seq<(Seq<u8>, Seq<u8>)>, e: (Seq<u8>, Seq<u8>))
    ensures
        enc_pairs(es.push(e)) == enc_pairs(es) + enc_entry(e),
    decreases es.len(),
{
    let es2 = es.push(e);
    if es.len() == 0 {
        assert(es2.first() == e);
        assert(es2.drop_first() =~= Seq::<(Seq<u8>, Seq<u8>)>::empty());
        assert(enc_pairs(Seq::<(Seq<u8>, Seq<u8>)>::empty()) == Seq::<u8>::empty());
        assert(enc_pairs(es2) == enc_entry(e) + Seq::<u8>::empty());
        assert(enc_pairs(es2) =~= enc_pairs(es) + enc_entry(e));
    } else {
        assert(es2.first() == es.first());
        assert(es2.drop_first() =~= es.drop_first().push(e));
        lemma_enc_pairs_snoc(es.drop_first(), e);
        assert(enc_entry(es.first()) + (enc_pairs(es.drop_first()) + enc_entry(e)) =~= (enc_entry(
            es.first(),
        ) + enc_pairs(es.drop_first())) + enc_entry(e));
    }
}

impl Model {
    /// Serialize the model.  The result is exactly the encoding of the
    /// model's entries, in order.
    pub fn to_bytes(&self) -> (r: Vec<u8>)
        ensures
            r@ == enc_pairs(model_pairs(self.entries@)),
    {
        let ghost ps = model_pairs(self.entries@);
        let mut out: Vec<u8> = Vec::new();
        let mut i: usize = 0;
        proof {
            assert(ps.take(0) =~= Seq::<(Seq<u8>, Seq<u8>)>::empty());
        }
        while i < self.entries.len()
            invariant
                i <= self.entries@.len(),
                ps == model_pairs(self.entries@),
                out@ == enc_pairs(ps.take(i as int)),
            decreases self.entries@.len() - i,
        {
            let ghost out0 = out@;
            let e = &self.entries[i];
            push_u64(&mut out, e.key.len() as u64);
            let mut t = copy_bytes(e.key.as_slice());
            out.append(&mut t);
            push_u64(&mut out, e.form.len() as u64);
            let mut t2 = copy_bytes(e.form.as_slice());
            out.append(&mut t2);
            proof {
                assert(ps[i as int] == (e.key@, e.form@));
                assert(out@ =~= out0 + enc_entry(ps[i as int]));
                lemma_enc_pairs_snoc(ps.take(i as int), ps[i as int]);
                assert(ps.take(i as int).push(ps[i as int]) =~= ps.take(i as int + 1));
            }
            i = i + 1;
        }
        proof {
            assert(ps.take(ps.len() as int) =~= ps);
        }
        out
    }

    /// Load a model from bytes.  Succeeds exactly on byte streams that parse
    /// and whose entries satisfy the model invariant; every other input is
    /// rejected as malformed, never accepted silently.
    pub fn from_bytes(data: &[u8]) -> (r: Result<Model, SerializationError>)
        ensures
            match r {
                Ok(m) => m.wf() && dec_model(data@) == Some(model_pairs(m.entries@)),
                Err(e) => dec_model(data@) == Option::<Seq<(Seq<u8>, Seq<u8>)>>::None && e
                    == SerializationError::Malformed,
            },
    {
        let mut entries: Vec<ModelEntry> = Vec::new();
        let mut pos: usize = 0;
        proof {
            assert(data@.skip(0) =~= data@);
            assert(model_pairs(entries@) =~= Seq::<(Seq<u8>, Seq<u8>)>::empty());
        }
        while pos < data.len()
            invariant
                pos <= data@.len(),
                dec_pairs(data@) == match dec_pairs(data@.skip(pos as int)) {
                    Option::Some(rest) => Some(model_pairs(entries@) + rest),
                    Option::None => None::<Seq<(Seq<u8>, Seq<u8>)>>,
                },
                forall|i: int, j: int|
                    0 <= i < j < entries@.len() ==> entries@[i].key@ != entries@[j].key@,
                forall|i: int|
                    0 <= i < entries@.len() ==> lower_seq(entries@[i].form@) == entries@[i].key@,
            decreases data@.len() - pos,
        {
            let ghost b = data@.skip(pos as int);
            let ghost ps0 = model_pairs(entries@);
            let remaining = data.len() - pos;
            assert(b.len() == remaining);
            if remaining < 8 {
                return Err(SerializationError::Malformed);
            }
            let klen64 = get_u64(data, pos);
            proof {
                assert(b.take(8) =~= data@.subrange(pos as int, pos as int + 8));
            }
            if klen64 > (remaining - 8) as u64 {
                assert(b.len() < 8 + dec_u64(b.take(8)) as int);
                return Err(SerializationError::Malformed);
            }
            let klen = klen64 as usize;
            let key = copy_range(data, pos + 8, pos + 8 + klen);
            proof {
                assert(key@ =~= b.subrange(8, 8 + klen as int));
            }
            let pos2 = pos + 8 + klen;
            let ghost b2 = b.skip(8 + klen as int);
            proof {
                assert(b2 =~= data@.skip(pos2 as int));
            }
            let remaining2 = data.len() - pos2;
            if remaining2 < 8 {
                return Err(SerializationError::Malformed);
            }
            let flen64 = get_u64(data, pos2);
            proof {
                assert(b2.take(8) =~= data@.subrange(pos2 as int, pos2 as int + 8));
            }
            if flen64 > (remaining2 - 8) as u64 {
                assert(b2.len() < 8 + dec_u64(b2.take(8)) as int);
                return Err(SerializationError::Malformed);
            }
            let flen = flen64 as usize;
            let form = copy_range(data, pos2 + 8, pos2 + 8 + flen);
            proof {
                assert(form@ =~= b2.subrange(8, 8 + flen as int));
            }
            let newpos = pos2 + 8 + flen;
            proof {
                assert(b2.skip(8 + flen as int) =~= data@.skip(newpos as int));
                assert(dec_pairs(b) == match dec_pairs(data@.skip(newpos as int)) {
                    Option::Some(rest) => Some(seq![(key@, form@)] + rest),
                    Option::None => None::<Seq<(Seq<u8>, Seq<u8>)>>,
                });
            }
            // Validate what the model invariant needs.
            let low = to_lower_bytes(form.as_slice());
            if !bytes_eq(low.as_slice(), key.as_slice()) {
                proof {
                    lemma_bad_pair_rejected(data@, newpos as int, ps0, (key@, form@));
                }
                return Err(SerializationError::Malformed);
            }
            match crate::model::find_entry(&entries, key.as_slice()) {
                Some(j) => {
                    proof {
                        assert(ps0[j as int] == (entries@[j as int].key@, entries@[j as int].form@));
                        assert(ps0[j as int].0 == key@);
                        lemma_bad_pair_rejected(data@, newpos as int, ps0, (key@, form@));
                    }
                    return Err(SerializationError::Malformed);
                },
                None => {},
            }
            entries.push(ModelEntry { key, form });
            proof {
                assert(model_pairs(entries@) =~= ps0.push((key@, form@)));
                if dec_pairs(data@.skip(newpos as int)) is Some {
                    let rest = dec_pairs(data@.skip(newpos as int)).unwrap();
                    assert(ps0 + (seq![(key@, form@)] + rest) =~= ps0.push((key@, form@)) + rest);
                }
            }
            pos = newpos;
        }
        proof {
            assert(data@.skip(data@.len() as int) =~= Seq::<u8>::empty());
            assert(dec_pairs(data@) == Some(model_pairs(entries@) + Seq::<(Seq<u8>, Seq<u8>)>::empty()));
            assert(model_pairs(entries@) + Seq::<(Seq<u8>, Seq<u8>)>::empty() =~= model_pairs(
                entries@,
            ));
            assert(pairs_wf(model_pairs(entries@)));
        }
        let m = Model { entries };
        assert(m.wf());
        Ok(m)
    }
}

/// Decoding undoes encoding of a pair sequence.
#[verifier::rlimit(80)]
pub proof fn lemma_dec_enc_pairs(es: Seq<(Seq<u8>, Seq<u8>)>)
    requires
        forall|i: int|
            0 <= i < es.len() ==> #[trigger] es[i].0.len() <= u64::MAX && es[i].1.len()
                <= u64::MAX,
    ensures
        dec_pairs(enc_pairs(es)) == Some(es),
    decreases es.len(),
{
    if es.len() == 0 {
        assert(es =~= Seq::<(Seq<u8>, Seq<u8>)>::empty());
        assert(enc_pairs(es) == Seq::<u8>::empty());
    } else {
        let e = es.first();
        let kl = e.0.len() as int;
        let fl = e.1.len() as int;
        let tail = enc_pairs(es.drop_first());
        let b = enc_pairs(es);
        assert(b == enc_entry(e) + tail);
        lemma_dec_enc_u64(e.0.len() as u64);
        lemma_dec_enc_u64(e.1.len() as u64);
        assert(b.len() == 16 + kl + fl + tail.len());
        assert(b.take(8) =~= enc_u64(e.0.len() as u64));
        assert(dec_u64(b.take(8)) as int == kl);
        assert(b.subrange(8, 8 + kl) =~= e.0);
        let b2 = b.skip(8 + kl);
        assert(b2 =~= enc_u64(e.1.len() as u64) + e.1 + tail);
        assert(b2.take(8) =~= enc_u64(e.1.len() as u64));
        assert(dec_u64(b2.take(8)) as int == fl);
        assert(b2.len() == 8 + fl + tail.len());
        assert(b2.subrange(8, 8 + fl) =~= e.1);
        assert(b2.skip(8 + fl) =~= tail);
        assert forall|i: int| 0 <= i < es.drop_first().len() implies #[trigger] es.drop_first()[i].0.len()
            <= u64::MAX && es.drop_first()[i].1.len() <= u64::MAX by {
            assert(es.drop_first()[i] == es[i + 1]);
        }
        lemma_dec_enc_pairs(es.drop_first());
        assert(dec_pairs(b) == Some(seq![(e.0, e.1)] + es.drop_first()));
        assert(seq![(e.0, e.1)] + es.drop_first() =~= es);
    }
}

/// Round trip of persistence: the bytes of a well-formed model load back to
/// exactly its entries.
pub proof fn lemma_dec_enc_model(es: Seq<(Seq<u8>, Seq<u8>)>)
    requires
        pairs_wf(es),
        forall|i: int|
            0 <= i < es.len() ==> #[trigger] es[i].0.len() <= u64::MAX && es[i].1.len()
                <= u64::MAX,
    ensures
        dec_model(enc_pairs(es)) == Some(es),
{
    lemma_dec_enc_pairs(es);
}

/// Entry lists with the same pairs look the same to the decoder's lookup.
proof fn lemma_pairs_determine_lookup(es1: Seq<ModelEntry>, es2: Seq<ModelEntry>, k: Seq<u8>)
    requires
        model_pairs(es1) == model_pairs(es2),
    ensures
        mentries_has(es1, k) == mentries_has(es2, k),
        mentries_has(es1, k) ==> mentries_at(es1, k) == mentries_at(es2, k),
    decreases es1.len(),
{
    assert(model_pairs(es1).len() == es1.len());
    assert(model_pairs(es2).len() == es2.len());
    assert(es1.len() == es2.len());
    if es1.len() > 0 {
        assert(model_pairs(es1)[0] == (es1.first().key@, es1.first().form@));
        assert(model_pairs(es2)[0] == (es2.first().key@, es2.first().form@));
        assert forall|i: int|
            0 <= i < es1.drop_first().len() implies #[trigger] model_pairs(es1.drop_first())[i]
            == model_pairs(es2.drop_first())[i] by {
            assert(es1.drop_first()[i] == es1[i + 1]);
            assert(es2.drop_first()[i] == es2[i + 1]);
            assert(model_pairs(es1)[i + 1] == model_pairs(es2)[i + 1]);
        }
        assert(model_pairs(es1.drop_first()) =~= model_pairs(es2.drop_first()));
        lemma_pairs_determine_lookup(es1.drop_first(), es2.drop_first(), k);
    }
}

/// Persistence keeps behavior: a model whose entries carry the same pairs —
/// such as one loaded from a saved model's bytes — has the same map and
/// truecases every sentence identically.
pub proof fn lemma_persistence_roundtrip(m: Model, m2: Model)
    requires
        model_pairs(m2.entries@) == model_pairs(m.entries@),
    ensures
        m2@ == m@,
        forall|s: Seq<u8>|
            #[trigger] crate::model::spec_truecase(m2@, s) == crate::model::spec_truecase(m@, s),
{
    assert forall|k: Seq<u8>| #[trigger] m2@.dom().contains(k) == m@.dom().contains(k) by {
        lemma_pairs_determine_lookup(m2.entries@, m.entries@, k);
    }
    assert forall|k: Seq<u8>| #[trigger] m2@.dom().contains(k) implies m2@[k] == m@[k] by {
        lemma_pairs_determine_lookup(m2.entries@, m.entries@, k);
    }
    assert(m2@ =~= m@);
}

/// When the parsed prefix ends in a pair that breaks the model invariant,
/// the whole stream is rejected, whatever follows.
proof fn lemma_bad_pair_rejected(
    data: Seq<u8>,
    newpos: int,
    ps0: Seq<(Seq<u8>, Seq<u8>)>,
    p: (Seq<u8>, Seq<u8>),
)
    requires
        dec_pairs(data) == match dec_pairs(data.skip(newpos)) {
            Option::Some(rest) => Some(ps0 + (seq![p] + rest)),
            Option::None => None::<Seq<(Seq<u8>, Seq<u8>)>>,
        },
        lower_seq(p.1) != p.0 || exists|i: int| 0 <= i < ps0.len() && ps0[i].0 == p.0,
    ensures
        dec_model(data) == Option::<Seq<(Seq<u8>, Seq<u8>)>>::None,
{
    if dec_pairs(data.skip(newpos)) is Some {
        let rest = dec_pairs(data.skip(newpos)).unwrap();
        let full = ps0 + (seq![p] + rest);
        assert(full[ps0.len() as int] == p);
        if lower_seq(p.1) != p.0 {
            assert(!pairs_wf(full));
        } else {
            let i = choose|i: int| 0 <= i < ps0.len() && ps0[i].0 == p.0;
            assert(full[i] == ps0[i]);
            assert(!pairs_wf(full));
        }
    }
}

} // verus!
