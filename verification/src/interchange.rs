//! The generic JSON-like interchange tree that a decoded bencode value maps
//! to: byte strings stay raw byte arrays (torrent fields such as `pieces`
//! are binary), integers stay numbers, lists become arrays, and dictionaries
//! become objects keyed by the lossily decoded key bytes, iterated in the
//! stored (sorted) order.

use vstd::prelude::*;
use crate::bencode_value::BencodedValue;
use crate::bencode_value::SpecValue;
use crate::bencode_value::entries_dv;
use crate::bencode_value::lemma_entries_dv_props;
use crate::bencode_value::lemma_seq_dv_props;
use crate::bencode_value::seq_dv;
use crate::bencode_decoder::decode_value_at;
use crate::bencode_decoder::spec_decode;
use crate::errors::TorrentError;
use crate::torrent::copy_bytes;
use crate::torrent::lossy_decode;
use crate::torrent::lossy_utf8_string;

verus! {

/// A JSON-like interchange value.
#[derive(Debug)]
pub enum InterchangeValue {
    Bytes(Vec<u8>),
    Integer(i64),
    Array(Vec<InterchangeValue>),
    Object(Vec<(String, InterchangeValue)>),
}

/// The mathematical shape of an interchange value.
#[verifier::ext_equal]
pub enum SpecInterchange {
    Bytes(Seq<u8>),
    Integer(i64),
    Array(Seq<SpecInterchange>),
    Object(Seq<(Seq<char>, SpecInterchange)>),
}

/// What a decoded bencode value maps to in the interchange tree.
pub open spec fn interchange_of(v: SpecValue) -> SpecInterchange
    decreases v, 1int,
{
    match v {
        SpecValue::BString(b) => SpecInterchange::Bytes(b),
        SpecValue::Integer(n) => SpecInterchange::Integer(n),
        SpecValue::List(l) => SpecInterchange::Array(interchange_of_seq(l)),
        SpecValue::Dictionary(d) => SpecInterchange::Object(interchange_of_entries(d)),
    }
}

/// Elementwise interchange mapping of a sequence of values.
pub open spec fn interchange_of_seq(l: Seq<SpecValue>) -> Seq<SpecInterchange>
    decreases l, 0int,
{
    if l.len() == 0 {
        Seq::empty()
    } else {
        interchange_of_seq(l.drop_last()).push(interchange_of(l.last()))
    }
}

/// Entrywise interchange mapping of dictionary entries: each raw key is
/// lossily decoded to text.
pub open spec fn interchange_of_entries(d: Seq<(Seq<u8>, SpecValue)>) -> Seq<
    (Seq<char>, SpecInterchange),
>
    decreases d, 0int,
{
    if d.len() == 0 {
        Seq::empty()
    } else {
        interchange_of_entries(d.drop_last()).push(
            (lossy_decode(d.last().0), interchange_of(d.last().1)),
        )
    }
}

/// `interchange_of_seq` maps elementwise.
pub broadcast proof fn lemma_interchange_of_seq_props(l: Seq<SpecValue>)
    ensures
        (#[trigger] interchange_of_seq(l)).len() == l.len(),
        forall|i: int| 0 <= i < l.len() ==> interchange_of_seq(l)[i] == interchange_of(l[i]),
    decreases l.len(),
{
    if l.len() > 0 {
        lemma_interchange_of_seq_props(l.drop_last());
        assert(forall|i: int| 0 <= i < l.len() - 1 ==> l.drop_last()[i] == l[i]);
    }
}

/// `interchange_of_entries` maps entrywise.
pub broadcast proof fn lemma_interchange_of_entries_props(d: Seq<(Seq<u8>, SpecValue)>)
    ensures
        (#[trigger] interchange_of_entries(d)).len() == d.len(),
        forall|i: int| 0 <= i < d.len() ==> interchange_of_entries(d)[i] == (
            lossy_decode(d[i].0),
            interchange_of(d[i].1),
        ),
    decreases d.len(),
{
    if d.len() > 0 {
        lemma_interchange_of_entries_props(d.drop_last());
        assert(forall|i: int| 0 <= i < d.len() - 1 ==> d.drop_last()[i] == d[i]);
    }
}

/// The spec-level mirror of a sequence of exec interchange values.
pub open spec fn jv_seq(l: Seq<InterchangeValue>) -> Seq<SpecInterchange>
    decreases l,
{
    if l.len() == 0 {
        Seq::empty()
    } else {
        jv_seq(l.drop_last()).push(l.last().jv())
    }
}

/// The spec-level mirror of a sequence of exec object entries.
pub open spec fn jv_entries(d: Seq<(String, InterchangeValue)>) -> Seq<
    (Seq<char>, SpecInterchange),
>
    decreases d,
{
    if d.len() == 0 {
        Seq::empty()
    } else {
        jv_entries(d.drop_last()).push((d.last().0@, d.last().1.jv()))
    }
}

/// `jv_seq` maps elementwise.
pub broadcast proof fn lemma_jv_seq_props(l: Seq<InterchangeValue>)
    ensures
        (#[trigger] jv_seq(l)).len() == l.len(),
        forall|i: int| 0 <= i < l.len() ==> jv_seq(l)[i] == l[i].jv(),
    decreases l.len(),
{
    if l.len() > 0 {
        lemma_jv_seq_props(l.drop_last());
        assert(forall|i: int| 0 <= i < l.len() - 1 ==> l.drop_last()[i] == l[i]);
    }
}

/// `jv_entries` maps entrywise.
pub broadcast proof fn lemma_jv_entries_props(d: Seq<(String, InterchangeValue)>)
    ensures
        (#[trigger] jv_entries(d)).len() == d.len(),
        forall|i: int| 0 <= i < d.len() ==> jv_entries(d)[i] == (d[i].0@, d[i].1.jv()),
    decreases d.len(),
{
    if d.len() > 0 {
        lemma_jv_entries_props(d.drop_last());
        assert(forall|i: int| 0 <= i < d.len() - 1 ==> d.drop_last()[i] == d[i]);
    }
}

impl InterchangeValue {
    /// The mathematical value this interchange tree represents.
    pub open spec fn jv(self) -> SpecInterchange
        decreases self,
    {
        match self {
            InterchangeValue::Bytes(b) => SpecInterchange::Bytes(b@),
            InterchangeValue::Integer(n) => SpecInterchange::Integer(n),
            InterchangeValue::Array(l) => SpecInterchange::Array(jv_seq(l@)),
            InterchangeValue::Object(o) => SpecInterchange::Object(jv_entries(o@)),
        }
    }
}

impl BencodedValue {
    /// Maps this value to the JSON-like interchange tree: byte strings as
    /// raw byte arrays, lists as arrays, dictionaries as objects with
    /// lossily decoded text keys in stored order.
    #[verifier::loop_isolation(false)]
    pub fn to_json(&self) -> (r: InterchangeValue)
        ensures
            r.jv() == interchange_of(self.dv()),
        decreases *self,
    {
        match self {
            BencodedValue::BString(b) => InterchangeValue::Bytes(copy_bytes(b.as_slice())),
            BencodedValue::Integer(n) => InterchangeValue::Integer(*n),
            BencodedValue::List(l) => {
                let ghost sdv = seq_dv(l@);
                proof {
                    lemma_seq_dv_props(l@);
                }
                let mut out: Vec<InterchangeValue> = Vec::new();
                let mut i: usize = 0;
                while i < l.len()
                    invariant
                        0 <= i <= l@.len(),
                        out@.len() == i,
                        forall|x: int| 0 <= x < i ==> (#[trigger] out@[x].jv()) == interchange_of(
                            sdv[x],
                        ),
                    decreases l@.len() - i,
                {
                    let c = l[i].to_json();
                    out.push(c);
                    i += 1;
                }
                proof {
                    lemma_jv_seq_props(out@);
                    lemma_interchange_of_seq_props(sdv);
                    assert(jv_seq(out@) =~= interchange_of_seq(sdv));
                }
                InterchangeValue::Array(out)
            },
            BencodedValue::Dictionary(d) => {
                let ghost edv = entries_dv(d@);
                proof {
                    lemma_entries_dv_props(d@);
                }
                let mut out: Vec<(String, InterchangeValue)> = Vec::new();
                let mut i: usize = 0;
                while i < d.len()
                    invariant
                        0 <= i <= d@.len(),
                        out@.len() == i,
                        forall|x: int| 0 <= x < i ==> (#[trigger] out@[x]).0@ == lossy_decode(
                            edv[x].0,
                        ) && out@[x].1.jv() == interchange_of(edv[x].1),
                    decreases d@.len() - i,
                {
                    let key = lossy_utf8_string(&d[i].0);
                    let c = d[i].1.to_json();
                    out.push((key, c));
                    i += 1;
                }
                proof {
                    lemma_jv_entries_props(out@);
                    lemma_interchange_of_entries_props(edv);
                    assert(jv_entries(out@) =~= interchange_of_entries(edv));
                }
                InterchangeValue::Object(out)
            },
        }
    }
}

/// Decodes the single bencoded value at the head of `encoded_value` and
/// maps it straight to the interchange tree.
pub fn decode_bencode_to_json(encoded_value: &[u8]) -> (r: Result<InterchangeValue, TorrentError>)
    ensures
        match r {
            Ok(j) => (match spec_decode(encoded_value@) {
                Ok((v, n)) => j.jv() == interchange_of(v),
                Err(_) => false,
            }),
            Err(e) => spec_decode(encoded_value@) == Err::<(SpecValue, int), TorrentError>(e),
        },
{
    proof {
        assert(encoded_value@.skip(0) =~= encoded_value@);
    }
    let decoded_value = match decode_value_at(encoded_value, 0) {
        Ok((v, _n)) => v,
        Err(e) => {
            return Err(e);
        },
    };
    Ok(decoded_value.to_json())
}

} // verus!
