//! The bencode value type and its mathematical model: a spec-level mirror of
//! the value tree, the canonical encoding function over that mirror, and the
//! well-formedness predicate (dictionary entries strictly sorted by raw key).

use vstd::prelude::*;
use crate::byteops::COLON_BYTE;
use crate::byteops::DICT_MARK;
use crate::byteops::END_MARK;
use crate::byteops::INT_MARK;
use crate::byteops::LIST_MARK;
use crate::byteops::bytes_eq;
use crate::byteops::i64_to_decimal;
use crate::byteops::lex_lt;
use crate::byteops::spec_dec_int;
use crate::byteops::spec_dec_nat;
use crate::byteops::u64_to_decimal;

verus! {

/// The mathematical shape of a decoded bencode value. Byte strings are raw
/// byte sequences, never text; dictionaries are sequences of key/value pairs.
#[verifier::ext_equal]
pub enum SpecValue {
    BString(Seq<u8>),
    Integer(i64),
    List(Seq<SpecValue>),
    Dictionary(Seq<(Seq<u8>, SpecValue)>),
}

/// Whether dictionary entries are in strictly ascending byte-lexicographic
/// key order; this also makes the keys pairwise distinct.
pub open spec fn entries_sorted(d: Seq<(Seq<u8>, SpecValue)>) -> bool {
    forall|i: int, j: int| 0 <= i < j < d.len() ==> lex_lt(d[i].0, d[j].0)
}

/// Well-formedness: every dictionary in the tree keeps its entries in
/// strictly ascending key order. The decoder establishes this and the
/// canonical encoder relies on it.
pub open spec fn wf(v: SpecValue) -> bool
    decreases v,
{
    match v {
        SpecValue::BString(_) => true,
        SpecValue::Integer(_) => true,
        SpecValue::List(l) => forall|i: int| 0 <= i < l.len() ==> wf(#[trigger] l[i]),
        SpecValue::Dictionary(d) => entries_sorted(d) && forall|i: int|
            0 <= i < d.len() ==> wf(#[trigger] d[i].1),
    }
}

/// The encoding of a byte string: decimal length, a colon, the raw bytes.
pub open spec fn spec_enc_bstring(s: Seq<u8>) -> Seq<u8> {
    spec_dec_nat(s.len()) + seq![COLON_BYTE] + s
}

/// The bencode encoding of a value, emitting dictionary entries in their
/// stored order (sorted order, for a well-formed value).
pub open spec fn spec_encode(v: SpecValue) -> Seq<u8>
    decreases v, 1int,
{
    match v {
        SpecValue::BString(s) => spec_enc_bstring(s),
        SpecValue::Integer(n) => seq![INT_MARK] + spec_dec_int(n as int) + seq![END_MARK],
        SpecValue::List(l) => seq![LIST_MARK] + spec_encode_items(l) + seq![END_MARK],
        SpecValue::Dictionary(d) => seq![DICT_MARK] + spec_encode_entries(d) + seq![END_MARK],
    }
}

/// The concatenated encodings of a sequence of values.
pub open spec fn spec_encode_items(l: Seq<SpecValue>) -> Seq<u8>
    decreases l, 0int,
{
    if l.len() == 0 {
        Seq::empty()
    } else {
        spec_encode(l[0]) + spec_encode_items(l.drop_first())
    }
}

/// The concatenated encodings of dictionary entries, each a byte-string key
/// followed by its value.
pub open spec fn spec_encode_entries(d: Seq<(Seq<u8>, SpecValue)>) -> Seq<u8>
    decreases d, 0int,
{
    if d.len() == 0 {
        Seq::empty()
    } else {
        spec_enc_bstring(d[0].0) + spec_encode(d[0].1) + spec_encode_entries(d.drop_first())
    }
}

/// Encoding a concatenation of value sequences concatenates the encodings.
pub proof fn lemma_encode_items_concat(a: Seq<SpecValue>, b: Seq<SpecValue>)
    ensures
        spec_encode_items(a + b) == spec_encode_items(a) + spec_encode_items(b),
    decreases a.len(),
{
    if a.len() == 0 {
        assert(a + b =~= b);
        assert(spec_encode_items(a) + spec_encode_items(b) =~= spec_encode_items(b));
    } else {
        assert((a + b).len() > 0 && (a + b)[0] == a[0]);
        assert((a + b).drop_first() =~= a.drop_first() + b);
        lemma_encode_items_concat(a.drop_first(), b);
        assert(spec_encode_items(a + b) =~= spec_encode_items(a) + spec_encode_items(b));
    }
}

/// Encoding a concatenation of entry sequences concatenates the encodings.
pub proof fn lemma_encode_entries_concat(a: Seq<(Seq<u8>, SpecValue)>, b: Seq<(Seq<u8>, SpecValue)>)
    ensures
        spec_encode_entries(a + b) == spec_encode_entries(a) + spec_encode_entries(b),
    decreases a.len(),
{
    if a.len() == 0 {
        assert(a + b =~= b);
        assert(spec_encode_entries(a) + spec_encode_entries(b) =~= spec_encode_entries(b));
    } else {
        assert((a + b).len() > 0 && (a + b)[0] == a[0]);
        assert((a + b).drop_first() =~= a.drop_first() + b);
        lemma_encode_entries_concat(a.drop_first(), b);
        assert(spec_encode_entries(a + b) =~= spec_encode_entries(a) + spec_encode_entries(b));
    }
}

/// A decoded bencode value: a raw byte string, a signed 64-bit integer, an
/// ordered list, or a dictionary of raw-key entries kept in ascending
/// byte-lexicographic key order.
#[derive(Debug)]
pub enum BencodedValue {
    BString(Vec<u8>),
    Integer(i64),
    List(Vec<BencodedValue>),
    Dictionary(Vec<(Vec<u8>, BencodedValue)>),
}

/// The spec-level mirror of a sequence of exec values.
pub open spec fn seq_dv(l: Seq<BencodedValue>) -> Seq<SpecValue>
    decreases l,
{
    if l.len() == 0 {
        Seq::empty()
    } else {
        seq_dv(l.drop_last()).push(l.last().dv())
    }
}

/// The spec-level mirror of a sequence of exec dictionary entries.
pub open spec fn entries_dv(d: Seq<(Vec<u8>, BencodedValue)>) -> Seq<(Seq<u8>, SpecValue)>
    decreases d,
{
    if d.len() == 0 {
        Seq::empty()
    } else {
        entries_dv(d.drop_last()).push((d.last().0@, d.last().1.dv()))
    }
}

/// `seq_dv` maps the sequence elementwise.
pub broadcast proof fn lemma_seq_dv_props(l: Seq<BencodedValue>)
    ensures
        (#[trigger] seq_dv(l)).len() == l.len(),
        forall|i: int| 0 <= i < l.len() ==> seq_dv(l)[i] == l[i].dv(),
    decreases l.len(),
{
    if l.len() > 0 {
        lemma_seq_dv_props(l.drop_last());
        assert(forall|i: int| 0 <= i < l.len() - 1 ==> l.drop_last()[i] == l[i]);
    }
}

/// `entries_dv` maps the entry sequence elementwise.
pub broadcast proof fn lemma_entries_dv_props(d: Seq<(Vec<u8>, BencodedValue)>)
    ensures
        (#[trigger] entries_dv(d)).len() == d.len(),
        forall|i: int| 0 <= i < d.len() ==> entries_dv(d)[i] == (d[i].0@, d[i].1.dv()),
    decreases d.len(),
{
    if d.len() > 0 {
        lemma_entries_dv_props(d.drop_last());
        assert(forall|i: int| 0 <= i < d.len() - 1 ==> d.drop_last()[i] == d[i]);
    }
}

/// Pushing an exec value mirrors as pushing its spec value.
pub proof fn lemma_seq_dv_push(l: Seq<BencodedValue>, x: BencodedValue)
    ensures
        seq_dv(l.push(x)) == seq_dv(l).push(x.dv()),
{
    assert(l.push(x).drop_last() =~= l);
    assert(l.push(x).last() == x);
}

/// Inserting an exec entry mirrors as inserting its spec entry.
pub proof fn lemma_entries_dv_insert(
    d: Seq<(Vec<u8>, BencodedValue)>,
    pos: int,
    e: (Vec<u8>, BencodedValue),
)
    requires
        0 <= pos <= d.len(),
    ensures
        entries_dv(d.insert(pos, e)) == entries_dv(d).insert(pos, (e.0@, e.1.dv())),
{
    broadcast use lemma_entries_dv_props;

    let lhs = entries_dv(d.insert(pos, e));
    let rhs = entries_dv(d).insert(pos, (e.0@, e.1.dv()));
    assert forall|i: int| 0 <= i < lhs.len() implies lhs[i] == rhs[i] by {
        if i < pos {
            assert(d.insert(pos, e)[i] == d[i]);
        } else if i == pos {
            assert(d.insert(pos, e)[i] == e);
        } else {
            assert(d.insert(pos, e)[i] == d[i - 1]);
        }
    }
    assert(lhs =~= rhs);
}

impl BencodedValue {
    /// The mathematical value this tree represents.
    pub open spec fn dv(self) -> SpecValue
        decreases self,
    {
        match self {
            BencodedValue::BString(b) => SpecValue::BString(b@),
            BencodedValue::Integer(n) => SpecValue::Integer(n),
            BencodedValue::List(l) => SpecValue::List(seq_dv(l@)),
            BencodedValue::Dictionary(d) => SpecValue::Dictionary(entries_dv(d@)),
        }
    }

    /// Well-formedness of the represented value.
    pub open spec fn well_formed(self) -> bool {
        wf(self.dv())
    }

    /// The dictionary entries, if this value is a dictionary.
    pub fn extract_dict(&self) -> (r: Option<&Vec<(Vec<u8>, BencodedValue)>>)
        ensures
            match r {
                Some(d) => *self == BencodedValue::Dictionary(*d),
                None => !(self is Dictionary),
            },
    {
        match self {
            BencodedValue::Dictionary(dict) => Some(dict),
            _ => None,
        }
    }

    /// The raw bytes, if this value is a byte string.
    pub fn extract_bstring(&self) -> (r: Option<&Vec<u8>>)
        ensures
            match r {
                Some(b) => *self == BencodedValue::BString(*b),
                None => !(self is BString),
            },
    {
        match self {
            BencodedValue::BString(bstring) => Some(bstring),
            _ => None,
        }
    }

    /// The integer, if this value is an integer.
    pub fn extract_integer(&self) -> (r: Option<i64>)
        ensures
            match r {
                Some(n) => *self == BencodedValue::Integer(n),
                None => !(self is Integer),
            },
    {
        match self {
            BencodedValue::Integer(val) => Some(*val),
            _ => None,
        }
    }
}

/// Appends all bytes of `b` to `out`.
pub fn append_bytes(out: &mut Vec<u8>, b: &[u8])
    ensures
        final(out)@ == old(out)@ + b@,
{
    let mut i: usize = 0;
    while i < b.len()
        invariant
            0 <= i <= b@.len(),
            out@ == old(out)@ + b@.take(i as int),

        decreases b@.len() - i,
    {
        out.push(b[i]);
        proof {
            assert(old(out)@ + b@.take(i + 1) =~= (old(out)@ + b@.take(i as int)).push(
                b@[i as int],
            ));
        }
        i += 1;
    }
    proof {
        assert(b@.take(b@.len() as int) =~= b@);
    }
}

impl BencodedValue {
    /// Encodes this value back to bencode bytes, emitting dictionary entries
    /// in their stored (sorted) order: the canonical form.
    #[verifier::loop_isolation(false)]
    pub fn encode(&self) -> (r: Vec<u8>)
        ensures
            r@ == spec_encode(self.dv()),
        decreases *self,
    {
        let mut out: Vec<u8> = Vec::new();
        match self {
            BencodedValue::BString(b) => {
                let mut digits = u64_to_decimal(b.len() as u64);
                out.append(&mut digits);
                out.push(COLON_BYTE);
                append_bytes(&mut out, b.as_slice());
                proof {
                    assert(out@ =~= spec_enc_bstring(b@));
                }
            },
            BencodedValue::Integer(n) => {
                out.push(INT_MARK);
                let mut digits = i64_to_decimal(*n);
                out.append(&mut digits);
                out.push(END_MARK);
                proof {
                    assert(out@ =~= seq![INT_MARK] + spec_dec_int(*n as int) + seq![END_MARK]);
                }
            },
            BencodedValue::List(l) => {
                out.push(LIST_MARK);
                let ghost ldv = seq_dv(l@);
                proof {
                    lemma_seq_dv_props(l@);
                    assert(ldv.take(0) =~= Seq::<SpecValue>::empty());
                    assert(out@ =~= seq![LIST_MARK] + spec_encode_items(ldv.take(0)));
                }
                let mut i: usize = 0;
                while i < l.len()
                    invariant
                        0 <= i <= l@.len(),
                        out@ == seq![LIST_MARK] + spec_encode_items(ldv.take(i as int)),
                    decreases l@.len() - i,
                {
                    let mut c = l[i].encode();
                    out.append(&mut c);
                    proof {
                        let one = seq![ldv[i as int]];
                        lemma_encode_items_concat(ldv.take(i as int), one);
                        assert(ldv.take(i + 1) =~= ldv.take(i as int) + one);
                        assert(one.drop_first() =~= Seq::<SpecValue>::empty());
                        assert(spec_encode_items(one) =~= spec_encode(ldv[i as int]));
                        assert(out@ =~= seq![LIST_MARK] + spec_encode_items(ldv.take(i + 1)));
                    }
                    i += 1;
                }
                out.push(END_MARK);
                proof {
                    assert(ldv.take(l@.len() as int) =~= ldv);
                    assert(out@ =~= seq![LIST_MARK] + spec_encode_items(ldv) + seq![END_MARK]);
                }
            },
            BencodedValue::Dictionary(d) => {
                out.push(DICT_MARK);
                let ghost edv = entries_dv(d@);
                proof {
                    lemma_entries_dv_props(d@);
                    assert(edv.take(0) =~= Seq::<(Seq<u8>, SpecValue)>::empty());
                    assert(out@ =~= seq![DICT_MARK] + spec_encode_entries(edv.take(0)));
                }
                let mut i: usize = 0;
                while i < d.len()
                    invariant
                        0 <= i <= d@.len(),
                        out@ == seq![DICT_MARK] + spec_encode_entries(edv.take(i as int)),
                    decreases d@.len() - i,
                {
                    let mut kd = u64_to_decimal(d[i].0.len() as u64);
                    out.append(&mut kd);
                    out.push(COLON_BYTE);
                    append_bytes(&mut out, d[i].0.as_slice());
                    let mut c = d[i].1.encode();
                    out.append(&mut c);
                    proof {
                        let one = seq![edv[i as int]];
                        lemma_encode_entries_concat(edv.take(i as int), one);
                        assert(edv.take(i + 1) =~= edv.take(i as int) + one);
                        assert(one.drop_first() =~= Seq::<(Seq<u8>, SpecValue)>::empty());
                        assert(spec_encode_entries(one) =~= spec_enc_bstring(edv[i as int].0)
                            + spec_encode(edv[i as int].1));
                        assert(out@ =~= seq![DICT_MARK] + spec_encode_entries(edv.take(i + 1)));
                    }
                    i += 1;
                }
                out.push(END_MARK);
                proof {
                    assert(edv.take(d@.len() as int) =~= edv);
                    assert(out@ =~= seq![DICT_MARK] + spec_encode_entries(edv) + seq![END_MARK]);
                }
            },
        }
        out
    }

    /// The length in bytes of this value's canonical encoding, recomputed
    /// from its structure alone.
    #[verifier::loop_isolation(false)]
    #[verifier::rlimit(60)]
    pub fn get_byte_length(&self) -> (r: usize)
        requires
            spec_encode(self.dv()).len() <= usize::MAX,
        ensures
            r as int == spec_encode(self.dv()).len(),
        decreases *self,
    {
        match self {
            BencodedValue::BString(b) => {
                let digits = u64_to_decimal(b.len() as u64);
                digits.len() + 1 + b.len()
            },
            BencodedValue::Integer(n) => {
                let digits = i64_to_decimal(*n);
                digits.len() + 2
            },
            BencodedValue::List(l) => {
                let ghost ldv = seq_dv(l@);
                proof {
                    lemma_seq_dv_props(l@);
                    assert(ldv.take(0) =~= Seq::<SpecValue>::empty());
                }
                let mut total: usize = 2;
                let mut i: usize = 0;
                while i < l.len()
                    invariant
                        0 <= i <= l@.len(),
                        total as int == 2 + spec_encode_items(ldv.take(i as int)).len(),
                    decreases l@.len() - i,
                {
                    proof {
                        reveal_with_fuel(spec_encode_items, 3);
                        let one = seq![ldv[i as int]];
                        lemma_encode_items_concat(ldv.take(i as int), one);
                        assert(ldv.take(i + 1) =~= ldv.take(i as int) + one);
                        assert(one.drop_first() =~= Seq::<SpecValue>::empty());
                        assert(spec_encode_items(one) =~= spec_encode(ldv[i as int]));
                        lemma_encode_items_concat(ldv.take(i + 1), ldv.skip(i + 1));
                        assert(ldv.take(i + 1) + ldv.skip(i + 1) =~= ldv);
                        assert(spec_encode(self.dv()).len() == 2 + spec_encode_items(ldv).len());
                    }
                    let c = l[i].get_byte_length();
                    total = total + c;
                    i += 1;
                }
                proof {
                    assert(ldv.take(l@.len() as int) =~= ldv);
                }
                total
            },
            BencodedValue::Dictionary(d) => {
                let ghost edv = entries_dv(d@);
                proof {
                    lemma_entries_dv_props(d@);
                    assert(edv.take(0) =~= Seq::<(Seq<u8>, SpecValue)>::empty());
                }
                let mut total: usize = 2;
                let mut i: usize = 0;
                while i < d.len()
                    invariant
                        0 <= i <= d@.len(),
                        total as int == 2 + spec_encode_entries(edv.take(i as int)).len(),
                    decreases d@.len() - i,
                {
                    proof {
                        reveal_with_fuel(spec_encode_entries, 3);
                        let one = seq![edv[i as int]];
                        lemma_encode_entries_concat(edv.take(i as int), one);
                        assert(edv.take(i + 1) =~= edv.take(i as int) + one);
                        assert(one.drop_first() =~= Seq::<(Seq<u8>, SpecValue)>::empty());
                        assert(spec_encode_entries(one) =~= spec_enc_bstring(edv[i as int].0)
                            + spec_encode(edv[i as int].1));
                        lemma_encode_entries_concat(edv.take(i + 1), edv.skip(i + 1));
                        assert(edv.take(i + 1) + edv.skip(i + 1) =~= edv);
                        assert(spec_encode(self.dv()).len() == 2 + spec_encode_entries(edv).len());
                    }
                    let kd = u64_to_decimal(d[i].0.len() as u64);
                    let c = d[i].1.get_byte_length();
                    total = total + kd.len();
                    total = total + 1;
                    total = total + d[i].0.len();
                    total = total + c;
                    i += 1;
                }
                proof {
                    assert(edv.take(d@.len() as int) =~= edv);
                }
                total
            },
        }
    }
}

impl BencodedValue {
    /// Whether two trees represent the same mathematical value.
    #[verifier::loop_isolation(false)]
    pub fn equals(&self, other: &BencodedValue) -> (r: bool)
        ensures
            r == (self.dv() == other.dv()),
        decreases *self,
    {
        match (self, other) {
            (BencodedValue::BString(a), BencodedValue::BString(b)) => bytes_eq(
                a.as_slice(),
                b.as_slice(),
            ),
            (BencodedValue::Integer(a), BencodedValue::Integer(b)) => *a == *b,
            (BencodedValue::List(a), BencodedValue::List(b)) => {
                proof {
                    lemma_seq_dv_props(a@);
                    lemma_seq_dv_props(b@);
                }
                if a.len() != b.len() {
                    return false;
                }
                let mut i: usize = 0;
                while i < a.len()
                    invariant
                        0 <= i <= a@.len(),
                        a@.len() == b@.len(),
                        forall|x: int| 0 <= x < i ==> seq_dv(a@)[x] == seq_dv(b@)[x],
                    decreases a@.len() - i,
                {
                    if !a[i].equals(&b[i]) {
                        proof {
                            assert(seq_dv(a@)[i as int] == a@[i as int].dv());
                            assert(seq_dv(b@)[i as int] == b@[i as int].dv());
                            assert(seq_dv(a@) != seq_dv(b@)) by {
                                if seq_dv(a@) == seq_dv(b@) {
                                    assert(seq_dv(a@)[i as int] == seq_dv(b@)[i as int]);
                                }
                            }
                        }
                        return false;
                    }
                    proof {
                        assert(seq_dv(a@)[i as int] == a@[i as int].dv());
                        assert(seq_dv(b@)[i as int] == b@[i as int].dv());
                    }
                    i += 1;
                }
                proof {
                    assert(seq_dv(a@) =~= seq_dv(b@));
                }
                true
            },
            (BencodedValue::Dictionary(a), BencodedValue::Dictionary(b)) => {
                proof {
                    lemma_entries_dv_props(a@);
                    lemma_entries_dv_props(b@);
                }
                if a.len() != b.len() {
                    return false;
                }
                let mut i: usize = 0;
                while i < a.len()
                    invariant
                        0 <= i <= a@.len(),
                        a@.len() == b@.len(),
                        forall|x: int| 0 <= x < i ==> entries_dv(a@)[x] == entries_dv(b@)[x],
                    decreases a@.len() - i,
                {
                    proof {
                        assert(entries_dv(a@)[i as int] == (a@[i as int].0@, a@[i as int].1.dv()));
                        assert(entries_dv(b@)[i as int] == (b@[i as int].0@, b@[i as int].1.dv()));
                    }
                    if !bytes_eq(a[i].0.as_slice(), b[i].0.as_slice()) {
                        proof {
                            assert(entries_dv(a@) != entries_dv(b@)) by {
                                if entries_dv(a@) == entries_dv(b@) {
                                    assert(entries_dv(a@)[i as int] == entries_dv(b@)[i as int]);
                                }
                            }
                        }
                        return false;
                    }
                    if !a[i].1.equals(&b[i].1) {
                        proof {
                            assert(entries_dv(a@) != entries_dv(b@)) by {
                                if entries_dv(a@) == entries_dv(b@) {
                                    assert(entries_dv(a@)[i as int] == entries_dv(b@)[i as int]);
                                }
                            }
                        }
                        return false;
                    }
                    i += 1;
                }
                proof {
                    assert(entries_dv(a@) =~= entries_dv(b@));
                }
                true
            },
            _ => false,
        }
    }
}

/// The value bound to `key`: the first entry with that key, if any.
pub open spec fn spec_lookup(d: Seq<(Seq<u8>, SpecValue)>, key: Seq<u8>) -> Option<SpecValue>
    decreases d.len(),
{
    if d.len() == 0 {
        None
    } else if d[0].0 == key {
        Some(d[0].1)
    } else {
        spec_lookup(d.drop_first(), key)
    }
}

/// Whether some entry has the key.
pub open spec fn spec_has_key(d: Seq<(Seq<u8>, SpecValue)>, key: Seq<u8>) -> bool {
    exists|i: int| 0 <= i < d.len() && d[i].0 == key
}

/// Looks a key up among dictionary entries by raw byte equality.
pub fn dict_get<'a>(entries: &'a Vec<(Vec<u8>, BencodedValue)>, key: &[u8]) -> (r: Option<
    &'a BencodedValue,
>)
    ensures
        match r {
            Some(v) => spec_lookup(entries_dv(entries@), key@) == Some(v.dv()),
            None => spec_lookup(entries_dv(entries@), key@) is None,
        },
{
    broadcast use lemma_entries_dv_props;

    let ghost ed = entries_dv(entries@);
    let mut i: usize = 0;
    proof {
        assert(ed.skip(0) =~= ed);
    }
    while i < entries.len()
        invariant
            0 <= i <= entries@.len(),
            ed == entries_dv(entries@),
            ed.len() == entries@.len(),
            spec_lookup(ed, key@) == spec_lookup(ed.skip(i as int), key@),
        decreases entries@.len() - i,
    {
        proof {
            lemma_entries_dv_props(entries@);
        }
        if bytes_eq(entries[i].0.as_slice(), key) {
            proof {
                assert(ed.skip(i as int)[0] == ed[i as int]);
                assert(ed[i as int].0 == key@);
                assert(spec_lookup(ed.skip(i as int), key@) == Some(ed[i as int].1));
            }
            return Some(&entries[i].1);
        }
        proof {
            assert(ed.skip(i as int).len() > 0);
            assert(ed.skip(i as int)[0] == ed[i as int]);
            assert(ed[i as int].0 != key@);
            assert(ed.skip(i as int).drop_first() =~= ed.skip(i + 1));
            assert(spec_lookup(ed.skip(i as int), key@) == spec_lookup(
                ed.skip(i as int).drop_first(),
                key@,
            ));
        }
        i += 1;
    }
    proof {
        assert(ed.skip(i as int).len() == 0);
    }
    None
}

} // verus!
