//! The bencode decoder: a spec-level grammar function that fixes the meaning
//! of every input byte sequence, and the executable decoder proved to return
//! exactly what the grammar says. Dictionaries are built in ascending
//! byte-lexicographic key order whatever order the input used, and a repeated
//! key is a `DuplicateKeyError`.

use vstd::prelude::*;
use crate::byteops::COLON_BYTE;
use crate::byteops::DICT_MARK;
use crate::byteops::DIGIT_NINE;
use crate::byteops::DIGIT_ZERO;
use crate::byteops::END_MARK;
use crate::byteops::INT_MARK;
use crate::byteops::LIST_MARK;
use crate::byteops::MINUS_BYTE;
use crate::byteops::PLUS_BYTE;
use crate::byteops::all_digits;
use crate::byteops::digits_prefix_len;
use crate::byteops::is_digit_byte;
use crate::byteops::lex_lt;
use crate::byteops::lemma_lex_lt_connected;
use crate::byteops::lemma_lex_lt_irrefl;
use crate::byteops::lemma_lex_lt_trans;
use crate::byteops::parse_digits;
use crate::byteops::bytes_eq;
use crate::byteops::lex_lt_bytes;
use crate::byteops::lemma_digits_prefix_len_is;
use crate::byteops::lemma_digits_prefix_len_props;
use crate::byteops::lemma_parse_digits_nonneg;
use crate::byteops::lemma_parse_digits_take_le;
use crate::byteops::lemma_spec_dec_nat_props;
use crate::byteops::spec_dec_int;
use crate::byteops::spec_dec_nat;
use crate::bencode_value::lemma_encode_entries_concat;
use crate::bencode_value::lemma_encode_items_concat;
use crate::bencode_value::spec_enc_bstring;
use crate::bencode_value::spec_encode;
use crate::bencode_value::spec_encode_entries;
use crate::bencode_value::spec_encode_items;
use crate::bencode_value::BencodedValue;
use crate::bencode_value::SpecValue;
use crate::bencode_value::entries_dv;
use crate::bencode_value::entries_sorted;
use crate::bencode_value::lemma_entries_dv_insert;
use crate::bencode_value::lemma_entries_dv_props;
use crate::bencode_value::lemma_seq_dv_props;
use crate::bencode_value::lemma_seq_dv_push;
use crate::bencode_value::seq_dv;
use crate::bencode_value::spec_has_key;
use crate::bencode_value::wf;
use crate::errors::TorrentError;

verus! {

/// The index of the first `e` byte of `s`, if there is one.
pub open spec fn find_end_mark(s: Seq<u8>) -> Option<int>
    decreases s.len(),
{
    if s.len() == 0 {
        None
    } else if s[0] == END_MARK {
        Some(0)
    } else {
        match find_end_mark(s.drop_first()) {
            None => None,
            Some(i) => Some(i + 1),
        }
    }
}

/// The value of an optionally signed run of decimal digits, or `None` when
/// `s` is not such a run. This is the lenient shape the integer token
/// accepts: a sign, then one or more digits, leading zeros included.
pub open spec fn spec_parse_signed(s: Seq<u8>) -> Option<int> {
    if s.len() >= 1 && (s[0] == PLUS_BYTE || s[0] == MINUS_BYTE) {
        let d = s.drop_first();
        if d.len() >= 1 && all_digits(d) {
            Some(if s[0] == MINUS_BYTE { -parse_digits(d) } else { parse_digits(d) })
        } else {
            None
        }
    } else if s.len() >= 1 && all_digits(s) {
        Some(parse_digits(s))
    } else {
        None
    }
}

/// What a byte-string token starting at the head of `s` decodes to: its raw
/// content and the count of bytes consumed, or a malformed-input failure.
pub open spec fn spec_decode_bstring(s: Seq<u8>) -> Result<(Seq<u8>, int), TorrentError> {
    let k = digits_prefix_len(s);
    if k == 0 {
        Err(TorrentError::MalformedInputError)
    } else if k >= s.len() || s[k] != COLON_BYTE {
        Err(TorrentError::MalformedInputError)
    } else {
        let n = parse_digits(s.take(k));
        if k + 1 + n > s.len() {
            Err(TorrentError::MalformedInputError)
        } else {
            Ok((s.subrange(k + 1, k + 1 + n), k + 1 + n))
        }
    }
}

/// What an integer token (`s` starts with `i`) decodes to: the digits up to
/// the first `e` read as a signed decimal that must fit a 64-bit integer.
pub open spec fn spec_decode_integer(s: Seq<u8>) -> Result<(SpecValue, int), TorrentError> {
    match find_end_mark(s.drop_first()) {
        None => Err(TorrentError::MalformedInputError),
        Some(m) => match spec_parse_signed(s.subrange(1, 1 + m)) {
            None => Err(TorrentError::MalformedInputError),
            Some(v) => if i64::MIN <= v <= i64::MAX {
                Ok((SpecValue::Integer(v as i64), m + 2))
            } else {
                Err(TorrentError::MalformedInputError)
            },
        },
    }
}

/// Inserts an entry into a key-sorted entry sequence, keeping the order.
pub open spec fn sorted_insert(
    d: Seq<(Seq<u8>, SpecValue)>,
    key: Seq<u8>,
    v: SpecValue,
) -> Seq<(Seq<u8>, SpecValue)>
    decreases d.len(),
{
    if d.len() == 0 {
        seq![(key, v)]
    } else if lex_lt(key, d[0].0) {
        seq![(key, v)] + d
    } else {
        seq![d[0]] + sorted_insert(d.drop_first(), key, v)
    }
}

/// What one bencoded value at the head of `s` decodes to, together with the
/// count of bytes it consumed. A leading digit opens a byte string, `i` an
/// integer, `l` a list, `d` a dictionary; anything else is malformed.
pub open spec fn spec_decode(s: Seq<u8>) -> Result<(SpecValue, int), TorrentError>
    decreases s.len(), 0int,
{
    if s.len() == 0 {
        Err(TorrentError::MalformedInputError)
    } else if is_digit_byte(s[0]) {
        match spec_decode_bstring(s) {
            Ok((b, n)) => Ok((SpecValue::BString(b), n)),
            Err(e) => Err(e),
        }
    } else if s[0] == INT_MARK {
        spec_decode_integer(s)
    } else if s[0] == LIST_MARK {
        match spec_decode_items(s.skip(1), Seq::empty()) {
            Ok((l, n)) => Ok((SpecValue::List(l), 1 + n)),
            Err(e) => Err(e),
        }
    } else if s[0] == DICT_MARK {
        match spec_decode_entries(s.skip(1), Seq::empty()) {
            Ok((d, n)) => Ok((SpecValue::Dictionary(d), 1 + n)),
            Err(e) => Err(e),
        }
    } else {
        Err(TorrentError::MalformedInputError)
    }
}

/// Decodes list items until the closing `e`, accumulating them in order.
pub open spec fn spec_decode_items(s: Seq<u8>, acc: Seq<SpecValue>) -> Result<
    (Seq<SpecValue>, int),
    TorrentError,
>
    decreases s.len(), 1int,
{
    if s.len() == 0 {
        Err(TorrentError::MalformedInputError)
    } else if s[0] == END_MARK {
        Ok((acc, 1))
    } else {
        match spec_decode(s) {
            Err(e) => Err(e),
            Ok((v, n)) => if n < 1 || n > s.len() {
                Err(TorrentError::MalformedInputError)
            } else {
                match spec_decode_items(s.skip(n), acc.push(v)) {
                    Err(e) => Err(e),
                    Ok((l, m)) => Ok((l, n + m)),
                }
            },
        }
    }
}

/// Decodes dictionary entries (byte-string key, then value) until the
/// closing `e`. A key already seen is a `DuplicateKeyError`; each new entry
/// goes to its sorted position.
pub open spec fn spec_decode_entries(s: Seq<u8>, acc: Seq<(Seq<u8>, SpecValue)>) -> Result<
    (Seq<(Seq<u8>, SpecValue)>, int),
    TorrentError,
>
    decreases s.len(), 1int,
{
    if s.len() == 0 {
        Err(TorrentError::MalformedInputError)
    } else if s[0] == END_MARK {
        Ok((acc, 1))
    } else {
        match spec_decode_bstring(s) {
            Err(e) => Err(e),
            Ok((key, kn)) => if kn < 1 || kn > s.len() {
                Err(TorrentError::MalformedInputError)
            } else if spec_has_key(acc, key) {
                Err(TorrentError::DuplicateKeyError)
            } else {
                match spec_decode(s.skip(kn)) {
                    Err(e) => Err(e),
                    Ok((v, vn)) => if vn < 1 || kn + vn > s.len() {
                        Err(TorrentError::MalformedInputError)
                    } else {
                        match spec_decode_entries(s.skip(kn + vn), sorted_insert(acc, key, v)) {
                            Err(e) => Err(e),
                            Ok((d, m)) => Ok((d, kn + vn + m)),
                        }
                    },
                }
            },
        }
    }
}

/// Where `find_end_mark` points: at the first `e`, inside the sequence.
pub proof fn lemma_find_end_mark_props(s: Seq<u8>)
    ensures
        match find_end_mark(s) {
            Some(i) => 0 <= i < s.len() && s[i] == END_MARK && forall|j: int|
                0 <= j < i ==> s[j] != END_MARK,
            None => forall|j: int| 0 <= j < s.len() ==> s[j] != END_MARK,
        },
    decreases s.len(),
{
    if s.len() > 0 && s[0] != END_MARK {
        lemma_find_end_mark_props(s.drop_first());
        let t = s.drop_first();
        match find_end_mark(t) {
            None => {
                assert forall|j: int| 0 <= j < s.len() implies s[j] != END_MARK by {
                    if j >= 1 {
                        assert(s[j] == t[j - 1]);
                    }
                }
            },
            Some(i) => {
                assert(s[i + 1] == t[i]);
                assert forall|j: int| 0 <= j < i + 1 implies s[j] != END_MARK by {
                    if j >= 1 {
                        assert(s[j] == t[j - 1]);
                    }
                }
            },
        }
    }
}

/// Inserting a fresh key into a sorted entry sequence keeps it sorted, adds
/// exactly that entry, and binds exactly the old keys plus the new one.
pub proof fn lemma_sorted_insert(d: Seq<(Seq<u8>, SpecValue)>, key: Seq<u8>, v: SpecValue)
    requires
        entries_sorted(d),
        !spec_has_key(d, key),
    ensures
        entries_sorted(sorted_insert(d, key, v)),
        sorted_insert(d, key, v).len() == d.len() + 1,
        forall|j: int| 0 <= j < sorted_insert(d, key, v).len() ==> (
            #[trigger] sorted_insert(d, key, v)[j] == (key, v) || d.contains(
                sorted_insert(d, key, v)[j],
            )
        ),
        forall|k2: Seq<u8>|
            spec_has_key(#[trigger] sorted_insert(d, key, v), k2) <==> (k2 == key || spec_has_key(
                d,
                k2,
            )),
    decreases d.len(),
{
    let r = sorted_insert(d, key, v);
    if d.len() == 0 {
        assert(r =~= seq![(key, v)]);
        assert(forall|k2: Seq<u8>| spec_has_key(r, k2) ==> r[choose|i: int|
            0 <= i < r.len() && r[i].0 == k2].0 == k2);
        assert(forall|k2: Seq<u8>| #![auto] k2 == key ==> r[0].0 == k2 && spec_has_key(r, k2));
    } else if lex_lt(key, d[0].0) {
        assert(r =~= seq![(key, v)] + d);
        assert(forall|j: int| 1 <= j < r.len() ==> r[j] == d[j - 1]);
        assert(entries_sorted(r)) by {
            assert forall|i: int, j: int| 0 <= i < j < r.len() implies lex_lt(r[i].0, r[j].0) by {
                if i == 0 {
                    if j >= 2 {
                        assert(lex_lt(d[0].0, d[j - 1].0));
                        lemma_lex_lt_trans(key, d[0].0, d[j - 1].0);
                    }
                } else {
                    assert(lex_lt(d[i - 1].0, d[j - 1].0));
                }
            }
        }
        assert(forall|j: int| 1 <= j < r.len() ==> d.contains(r[j])) by {
            assert(forall|j: int| 1 <= j < r.len() ==> r[j] == d[j - 1]);
        }
        assert(forall|k2: Seq<u8>| spec_has_key(d, k2) ==> spec_has_key(r, k2)) by {
            assert forall|k2: Seq<u8>| spec_has_key(d, k2) implies spec_has_key(r, k2) by {
                let i = choose|i: int| 0 <= i < d.len() && d[i].0 == k2;
                assert(r[i + 1].0 == k2);
            }
        }
        assert(spec_has_key(r, key)) by {
            assert(r[0].0 == key);
        }
        assert(forall|k2: Seq<u8>| spec_has_key(r, k2) ==> (k2 == key || spec_has_key(d, k2)))
            by {
            assert forall|k2: Seq<u8>| spec_has_key(r, k2) implies (k2 == key || spec_has_key(
                d,
                k2,
            )) by {
                let i = choose|i: int| 0 <= i < r.len() && r[i].0 == k2;
                if i >= 1 {
                    assert(d[i - 1].0 == k2);
                }
            }
        }
    } else {
        // The new key is distinct from the head key and not below it, so it
        // goes somewhere after the head.
        assert(d[0].0 != key) by {
            assert(spec_has_key(d, key) || d[0].0 != key) by {
                if d[0].0 == key {
                    assert(spec_has_key(d, key));
                }
            }
        }
        lemma_lex_lt_connected(key, d[0].0);
        assert(lex_lt(d[0].0, key));
        let dd = d.drop_first();
        assert(entries_sorted(dd)) by {
            assert(forall|i: int| 0 <= i < dd.len() ==> dd[i] == d[i + 1]);
        }
        assert(!spec_has_key(dd, key)) by {
            if spec_has_key(dd, key) {
                let i = choose|i: int| 0 <= i < dd.len() && dd[i].0 == key;
                assert(d[i + 1].0 == key);
                assert(spec_has_key(d, key));
            }
        }
        lemma_sorted_insert(dd, key, v);
        let rr = sorted_insert(dd, key, v);
        assert(r =~= seq![d[0]] + rr);
        assert(forall|j: int| 1 <= j < r.len() ==> r[j] == rr[j - 1]);
        // Every key in the tail of the result is above the head key.
        assert(forall|j: int| 1 <= j < r.len() ==> lex_lt(r[0].0, r[j].0)) by {
            assert forall|j: int| 1 <= j < r.len() implies lex_lt(r[0].0, r[j].0) by {
                if rr[j - 1] == (key, v) {
                    assert(lex_lt(d[0].0, key));
                } else {
                    assert(dd.contains(rr[j - 1]));
                    let i = choose|i: int| 0 <= i < dd.len() && dd[i] == rr[j - 1];
                    assert(dd[i] == d[i + 1]);
                    assert(lex_lt(d[0].0, d[i + 1].0));
                }
            }
        }
        assert(entries_sorted(r)) by {
            assert(forall|i: int, j: int| 1 <= i < j < r.len() ==> lex_lt(r[i].0, r[j].0)) by {
                assert(forall|i: int, j: int| 1 <= i < j < r.len() ==> r[i] == rr[i - 1] && r[j]
                    == rr[j - 1] && lex_lt(rr[i - 1].0, rr[j - 1].0));
            }
        }
        assert(forall|j: int| 0 <= j < r.len() ==> (r[j] == (key, v) || d.contains(r[j]))) by {
            assert forall|j: int| 0 <= j < r.len() implies (r[j] == (key, v) || d.contains(
                r[j],
            )) by {
                if j == 0 {
                    assert(d[0] == r[0]);
                    assert(d.contains(r[0]));
                } else if rr[j - 1] == (key, v) {
                } else {
                    assert(dd.contains(rr[j - 1]));
                    let i = choose|i: int| 0 <= i < dd.len() && dd[i] == rr[j - 1];
                    assert(d[i + 1] == r[j]);
                    assert(d.contains(r[j]));
                }
            }
        }
        assert(forall|k2: Seq<u8>| spec_has_key(r, k2) <==> (k2 == key || spec_has_key(d, k2)))
            by {
            assert forall|k2: Seq<u8>| spec_has_key(r, k2) implies (k2 == key || spec_has_key(
                d,
                k2,
            )) by {
                let i = choose|i: int| 0 <= i < r.len() && r[i].0 == k2;
                if i == 0 {
                    assert(d[0].0 == k2);
                    assert(spec_has_key(d, k2));
                } else {
                    assert(spec_has_key(rr, k2)) by {
                        assert(rr[i - 1].0 == k2);
                    }
                    if k2 != key {
                        assert(spec_has_key(dd, k2));
                        let x = choose|x: int| 0 <= x < dd.len() && dd[x].0 == k2;
                        assert(d[x + 1].0 == k2);
                        assert(spec_has_key(d, k2));
                    }
                }
            }
            assert forall|k2: Seq<u8>| (k2 == key || spec_has_key(d, k2)) implies spec_has_key(
                r,
                k2,
            ) by {
                if k2 == key {
                    assert(spec_has_key(rr, key));
                    let i = choose|i: int| 0 <= i < rr.len() && rr[i].0 == key;
                    assert(r[i + 1].0 == key);
                } else {
                    let i = choose|i: int| 0 <= i < d.len() && d[i].0 == k2;
                    if i == 0 {
                        assert(r[0].0 == k2);
                    } else {
                        assert(dd[i - 1].0 == k2);
                        assert(spec_has_key(dd, k2));
                        assert(spec_has_key(rr, k2));
                        let x = choose|x: int| 0 <= x < rr.len() && rr[x].0 == k2;
                        assert(r[x + 1].0 == k2);
                    }
                }
            }
        }
    }
}

/// Whatever the decoder returns is well-formed: every dictionary in it keeps
/// its entries strictly sorted by key.
pub proof fn lemma_spec_decode_wf(s: Seq<u8>)
    ensures
        match spec_decode(s) {
            Ok((v, n)) => wf(v),
            Err(_) => true,
        },
    decreases s.len(), 0int,
{
    if s.len() == 0 {
    } else if is_digit_byte(s[0]) {
    } else if s[0] == INT_MARK {
    } else if s[0] == LIST_MARK {
        lemma_spec_decode_items_wf(s.skip(1), Seq::empty());
    } else if s[0] == DICT_MARK {
        lemma_spec_decode_entries_wf(s.skip(1), Seq::empty());
    }
}

/// Companion of `lemma_spec_decode_wf` for list items.
pub proof fn lemma_spec_decode_items_wf(s: Seq<u8>, acc: Seq<SpecValue>)
    requires
        forall|i: int| 0 <= i < acc.len() ==> wf(#[trigger] acc[i]),
    ensures
        match spec_decode_items(s, acc) {
            Ok((l, m)) => forall|i: int| 0 <= i < l.len() ==> wf(#[trigger] l[i]),
            Err(_) => true,
        },
    decreases s.len(), 1int,
{
    if s.len() == 0 {
    } else if s[0] == END_MARK {
    } else {
        match spec_decode(s) {
            Err(_) => {},
            Ok((v, n)) => {
                if 1 <= n <= s.len() {
                    lemma_spec_decode_wf(s);
                    assert(forall|i: int| 0 <= i < acc.push(v).len() ==> wf(
                        #[trigger] acc.push(v)[i],
                    )) by {
                        assert(forall|i: int| 0 <= i < acc.len() ==> acc.push(v)[i] == acc[i]);
                        assert(acc.push(v)[acc.len() as int] == v);
                    }
                    lemma_spec_decode_items_wf(s.skip(n), acc.push(v));
                }
            },
        }
    }
}

/// Companion of `lemma_spec_decode_wf` for dictionary entries.
pub proof fn lemma_spec_decode_entries_wf(s: Seq<u8>, acc: Seq<(Seq<u8>, SpecValue)>)
    requires
        entries_sorted(acc),
        forall|i: int| 0 <= i < acc.len() ==> wf(#[trigger] acc[i].1),
    ensures
        match spec_decode_entries(s, acc) {
            Ok((d, m)) => entries_sorted(d) && forall|i: int| 0 <= i < d.len() ==> wf(
                #[trigger] d[i].1,
            ),
            Err(_) => true,
        },
    decreases s.len(), 1int,
{
    if s.len() == 0 {
    } else if s[0] == END_MARK {
    } else {
        match spec_decode_bstring(s) {
            Err(_) => {},
            Ok((key, kn)) => {
                if 1 <= kn <= s.len() && !spec_has_key(acc, key) {
                    match spec_decode(s.skip(kn)) {
                        Err(_) => {},
                        Ok((v, vn)) => {
                            if 1 <= vn && kn + vn <= s.len() {
                                lemma_spec_decode_wf(s.skip(kn));
                                lemma_sorted_insert(acc, key, v);
                                let acc2 = sorted_insert(acc, key, v);
                                assert(forall|i: int| 0 <= i < acc2.len() ==> wf(
                                    #[trigger] acc2[i].1,
                                )) by {
                                    assert forall|i: int| 0 <= i < acc2.len() implies wf(
                                        acc2[i].1,
                                    ) by {
                                        if acc2[i] == (key, v) {
                                        } else {
                                            assert(acc.contains(acc2[i]));
                                            let x = choose|x: int|
                                                0 <= x < acc.len() && acc[x] == acc2[i];
                                            assert(wf(acc[x].1));
                                        }
                                    }
                                }
                                lemma_spec_decode_entries_wf(s.skip(kn + vn), acc2);
                            }
                        },
                    }
                }
            },
        }
    }
}

/// Decodes one byte-string token starting at `from`: decimal length, colon,
/// then that many raw bytes. Returns the content and the count of bytes
/// consumed from `from` on.
pub fn decode_bencoded_bstring(s: &[u8], from: usize) -> (r: Result<(Vec<u8>, usize), TorrentError>)
    requires
        from <= s@.len(),
    ensures
        match r {
            Ok((b, n)) => spec_decode_bstring(s@.skip(from as int)) == Ok::<
                (Seq<u8>, int),
                TorrentError,
            >((b@, n as int)) && 2 <= n && from + n <= s@.len(),
            Err(e) => spec_decode_bstring(s@.skip(from as int)) == Err::<
                (Seq<u8>, int),
                TorrentError,
            >(e),
        },
{
    let ghost t = s@.skip(from as int);
    proof {
        assert(forall|x: int| 0 <= x < t.len() ==> t[x] == s@[from + x]);
    }
    let len = s.len();
    // Scan the run of leading digits.
    let mut i = from;
    while i < len && s[i] >= DIGIT_ZERO && s[i] <= DIGIT_NINE
        invariant
            from <= i <= len,
            len == s@.len(),
            forall|j: int| from <= j < i ==> is_digit_byte(s@[j]),
        decreases len - i,
    {
        i += 1;
    }
    let ghost k = i - from;
    proof {
        assert(forall|j: int| 0 <= j < k ==> t[j] == s@[from + j] && is_digit_byte(t[j]));
        if i < len {
            assert(!is_digit_byte(t[k as int]));
        }
        lemma_digits_prefix_len_is(t, k as int);
    }
    if i == from {
        return Err(TorrentError::MalformedInputError);
    }
    if i >= len {
        proof {
            assert(k >= t.len());
        }
        return Err(TorrentError::MalformedInputError);
    }
    if s[i] != COLON_BYTE {
        proof {
            assert(t[k as int] != COLON_BYTE);
        }
        return Err(TorrentError::MalformedInputError);
    }
    let ghost dg = t.take(k as int);
    proof {
        assert(forall|j: int| 0 <= j < k ==> dg[j] == t[j]);
        assert(all_digits(dg));
        lemma_parse_digits_nonneg(dg);
    }
    // Read the decimal length, watching for overflow: a length too large to
    // represent certainly overruns the input.
    let mut n: usize = 0;
    let mut j = from;
    proof {
        assert(dg.take(0) =~= Seq::<u8>::empty());
    }
    while j < i
        invariant
            from <= j <= i <= len,
            len == s@.len(),
            i < len,
            t == s@.skip(from as int),
            t.len() == len - from,
            k == i - from,
            digits_prefix_len(t) == k,
            1 <= k < t.len(),
            t[k as int] == COLON_BYTE,
            dg == t.take(k as int),
            all_digits(dg),
            forall|x: int| from <= x < i ==> is_digit_byte(s@[x]),
            forall|x: int| 0 <= x < t.len() ==> t[x] == s@[from + x],
            n as int == parse_digits(dg.take(j - from)),
        decreases i - j,
    {
        let c = s[j];
        proof {
            assert(is_digit_byte(s@[j as int]));
        }
        let d = (c - DIGIT_ZERO) as usize;
        let ghost pre = dg.take(j - from);
        let ghost pre2 = dg.take(j + 1 - from);
        proof {
            assert(pre2.drop_last() =~= pre);
            assert(pre2.last() == t[j - from] == s@[j as int]);
            assert(parse_digits(pre2) == parse_digits(pre) * 10 + d);
        }
        let n10 = match n.checked_mul(10) {
            Some(x) => x,
            None => {
                proof {
                    lemma_parse_digits_take_le(dg, j + 1 - from);
                    assert(parse_digits(dg) >= parse_digits(pre2));
                    assert(parse_digits(pre2) > usize::MAX);
                    assert(k + 1 + parse_digits(dg) > t.len());
                }
                return Err(TorrentError::MalformedInputError);
            },
        };
        let n2 = match n10.checked_add(d) {
            Some(x) => x,
            None => {
                proof {
                    lemma_parse_digits_take_le(dg, j + 1 - from);
                    assert(parse_digits(pre2) > usize::MAX);
                    assert(k + 1 + parse_digits(dg) > t.len());
                }
                return Err(TorrentError::MalformedInputError);
            },
        };
        n = n2;
        j += 1;
    }
    proof {
        assert(dg.take(k as int) =~= dg);
        assert(n as int == parse_digits(dg));
    }
    // The content must fit in what remains after the colon.
    if n > len - i - 1 {
        proof {
            assert(k + 1 + parse_digits(dg) > t.len());
        }
        return Err(TorrentError::MalformedInputError);
    }
    let start = i + 1;
    let mut b: Vec<u8> = Vec::new();
    let mut p = start;
    while p < start + n
        invariant
            i + 1 == start,
            from <= i < len,
            len == s@.len(),
            start <= p <= start + n,
            start + n <= len,
            t == s@.skip(from as int),
            k == i - from,
            forall|x: int| 0 <= x < t.len() ==> t[x] == s@[from + x],
            b@.len() == p - start,
            forall|x: int| 0 <= x < b@.len() ==> b@[x] == s@[start + x],
        decreases start + n - p,
    {
        let c = s[p];
        b.push(c);
        p += 1;
    }
    proof {
        assert(b@ =~= t.subrange(k + 1, k + 1 + n));
    }
    Ok((b, i + 1 + n - from))
}

/// Decodes one integer token (`i`, optionally signed digits, `e`) starting
/// at `from`. Accepts what a lenient decimal parser accepts, leading zeros
/// included, as long as the value fits a signed 64-bit integer.
pub fn decode_bencoded_integer(s: &[u8], from: usize) -> (r: Result<(i64, usize), TorrentError>)
    requires
        from < s@.len(),
        s@[from as int] == INT_MARK,
    ensures
        match r {
            Ok((v, n)) => spec_decode_integer(s@.skip(from as int)) == Ok::<
                (SpecValue, int),
                TorrentError,
            >((SpecValue::Integer(v), n as int)) && 3 <= n && from + n <= s@.len(),
            Err(e) => spec_decode_integer(s@.skip(from as int)) == Err::<
                (SpecValue, int),
                TorrentError,
            >(e),
        },
{
    let ghost t = s@.skip(from as int);
    proof {
        assert(forall|x: int| 0 <= x < t.len() ==> t[x] == s@[from + x]);
        assert(forall|x: int| 0 <= x < t.len() - 1 ==> t.drop_first()[x] == s@[from + 1 + x]);
    }
    let len = s.len();
    // Find the terminating `e`.
    let mut j = from + 1;
    while j < len && s[j] != END_MARK
        invariant
            from + 1 <= j <= len,
            len == s@.len(),
            forall|x: int| from + 1 <= x < j ==> s@[x] != END_MARK,
        decreases len - j,
    {
        j += 1;
    }
    if j >= len {
        proof {
            lemma_find_end_mark_props(t.drop_first());
            if let Some(i) = find_end_mark(t.drop_first()) {
                assert(t.drop_first()[i] == s@[from + 1 + i]);
                assert(false);
            }
        }
        return Err(TorrentError::MalformedInputError);
    }
    let ghost m = j - from - 1;
    proof {
        lemma_find_end_mark_props(t.drop_first());
        assert(t.drop_first()[m as int] == s@[j as int]);
        match find_end_mark(t.drop_first()) {
            None => {
                assert(false);
            },
            Some(i) => {
                if i < m {
                    assert(t.drop_first()[i] == s@[from + 1 + i]);
                    assert(false);
                }
                if i > m {
                    assert(false);
                }
            },
        }
        assert(find_end_mark(t.drop_first()) == Some(m as int));
    }
    let ghost body = t.subrange(1, 1 + m as int);
    proof {
        assert(forall|x: int| 0 <= x < body.len() ==> body[x] == s@[from + 1 + x]);
        assert(body.len() == m);
    }
    let mut p = from + 1;
    let mut neg = false;
    if s[p] == PLUS_BYTE || s[p] == MINUS_BYTE {
        neg = s[p] == MINUS_BYTE;
        p += 1;
    }
    let ghost sign_present = (p == from + 2);
    let ghost dgs = if sign_present {
        body.drop_first()
    } else {
        body
    };
    proof {
        assert(forall|x: int| 0 <= x < dgs.len() ==> dgs[x] == s@[p + x]);
        assert(dgs.len() == j - p);
    }
    if p >= j {
        // No digits at all: an empty token or a bare sign.
        return Err(TorrentError::MalformedInputError);
    }
    let mut mag: u64 = 0;
    let mut q = p;
    proof {
        assert(dgs.take(0) =~= Seq::<u8>::empty());
    }
    while q < j
        invariant
            p <= q <= j < len,
            len == s@.len(),
            from + 1 <= p <= from + 2,
            p < j,
            t == s@.skip(from as int),
            t.len() == len - from,
            from < len,
            s@[from as int] == INT_MARK,
            m == j - from - 1,
            find_end_mark(t.drop_first()) == Some(m as int),
            body == t.subrange(1, 1 + m as int),
            body.len() == m,
            sign_present == (p == from + 2),
            sign_present ==> body.len() >= 1 && (body[0] == PLUS_BYTE || body[0] == MINUS_BYTE),
            !sign_present ==> !(body.len() >= 1 && (body[0] == PLUS_BYTE || body[0]
                == MINUS_BYTE)),
            neg == (sign_present && body[0] == MINUS_BYTE),
            dgs == if sign_present { body.drop_first() } else { body },
            forall|x: int| 0 <= x < dgs.len() ==> dgs[x] == s@[p + x],
            dgs.len() == j - p,
            forall|x: int| p <= x < q ==> is_digit_byte(s@[x]),
            mag as int == parse_digits(dgs.take(q - p)),
        decreases j - q,
    {
        let c = s[q];
        if c < DIGIT_ZERO || c > DIGIT_NINE {
            proof {
                assert(dgs[q - p] == s@[q as int]);
                assert(!all_digits(dgs));
                assert(spec_parse_signed(body) is None);
            }
            return Err(TorrentError::MalformedInputError);
        }
        let d = (c - DIGIT_ZERO) as u64;
        let ghost pre = dgs.take(q - p);
        let ghost pre2 = dgs.take(q + 1 - p);
        proof {
            assert(pre2.drop_last() =~= pre);
            assert(pre2.last() == dgs[q - p] == s@[q as int]);
            assert(parse_digits(pre2) == parse_digits(pre) * 10 + d);
            assert(forall|x: int| 0 <= x < pre2.len() ==> pre2[x] == dgs[x]);
        }
        let m10 = match mag.checked_mul(10) {
            Some(x) => x,
            None => {
                proof {
                    lemma_int_token_overflow(body, dgs, pre2, sign_present, q + 1 - p);
                }
                return Err(TorrentError::MalformedInputError);
            },
        };
        let m2 = match m10.checked_add(d) {
            Some(x) => x,
            None => {
                proof {
                    lemma_int_token_overflow(body, dgs, pre2, sign_present, q + 1 - p);
                }
                return Err(TorrentError::MalformedInputError);
            },
        };
        mag = m2;
        q += 1;
    }
    proof {
        assert(dgs.take(q - p) =~= dgs);
        assert(mag as int == parse_digits(dgs));
        assert(all_digits(dgs)) by {
            assert(forall|x: int| 0 <= x < dgs.len() ==> dgs[x] == s@[p + x] && is_digit_byte(
                s@[p + x],
            ));
        }
        assert(dgs.len() >= 1);
        if sign_present {
            assert(spec_parse_signed(body) == Some(
                if body[0] == MINUS_BYTE {
                    -parse_digits(dgs)
                } else {
                    parse_digits(dgs)
                },
            ));
        } else {
            assert(spec_parse_signed(body) == Some(parse_digits(dgs)));
        }
    }
    let n_total = j + 1 - from;
    if neg {
        if mag > 9223372036854775808u64 {
            return Err(TorrentError::MalformedInputError);
        }
        let v: i64 = if mag == 9223372036854775808u64 {
            i64::MIN
        } else {
            -(mag as i64)
        };
        Ok((v, n_total))
    } else {
        if mag > 9223372036854775807u64 {
            return Err(TorrentError::MalformedInputError);
        }
        Ok((mag as i64, n_total))
    }
}

/// When the magnitude of an integer token overflows 64 unsigned bits, the
/// token's value cannot fit a signed 64-bit integer, so the token is
/// malformed.
proof fn lemma_int_token_overflow(
    body: Seq<u8>,
    dgs: Seq<u8>,
    pre2: Seq<u8>,
    sign_present: bool,
    upto: int,
)
    requires
        dgs == if sign_present {
            body.drop_first()
        } else {
            body
        },
        sign_present ==> body.len() >= 1 && (body[0] == PLUS_BYTE || body[0] == MINUS_BYTE),
        !sign_present ==> !(body.len() >= 1 && (body[0] == PLUS_BYTE || body[0] == MINUS_BYTE)),
        0 <= upto <= dgs.len(),
        pre2 == dgs.take(upto),
        parse_digits(pre2) > u64::MAX,
    ensures
        match spec_parse_signed(body) {
            None => true,
            Some(v) => v < i64::MIN || v > i64::MAX,
        },
{
    if spec_parse_signed(body) is Some {
        assert(all_digits(dgs));
        lemma_parse_digits_take_le(dgs, upto);
        assert(parse_digits(dgs) >= parse_digits(pre2));
        assert(parse_digits(dgs) > u64::MAX);
    }
}

/// In a sorted entry sequence, inserting a key at the first position whose
/// entry is not below that key is exactly `sorted_insert`; and if the entry
/// there does not carry the key, the key is absent altogether.
proof fn lemma_sorted_insert_at(d: Seq<(Seq<u8>, SpecValue)>, key: Seq<u8>, v: SpecValue, pos: int)
    requires
        entries_sorted(d),
        0 <= pos <= d.len(),
        forall|i: int| 0 <= i < pos ==> lex_lt(#[trigger] d[i].0, key),
        pos < d.len() ==> !lex_lt(d[pos].0, key),
        pos < d.len() ==> d[pos].0 != key,
    ensures
        !spec_has_key(d, key),
        sorted_insert(d, key, v) == d.insert(pos, (key, v)),
    decreases d.len(),
{
    if d.len() == 0 {
        assert(sorted_insert(d, key, v) =~= d.insert(0, (key, v)));
    } else if pos == 0 {
        lemma_lex_lt_connected(key, d[0].0);
        assert(lex_lt(key, d[0].0));
        assert(sorted_insert(d, key, v) =~= d.insert(0, (key, v)));
        assert forall|i: int| 0 <= i < d.len() implies d[i].0 != key by {
            if i > 0 {
                lemma_lex_lt_trans(key, d[0].0, d[i].0);
            }
            if d[i].0 == key {
                lemma_lex_lt_irrefl(key);
            }
        }
    } else {
        assert(lex_lt(d[0].0, key));
        if lex_lt(key, d[0].0) {
            lemma_lex_lt_trans(key, d[0].0, key);
            lemma_lex_lt_irrefl(key);
        }
        let dd = d.drop_first();
        assert(entries_sorted(dd)) by {
            assert(forall|i: int| 0 <= i < dd.len() ==> dd[i] == d[i + 1]);
        }
        assert(forall|i: int| 0 <= i < pos - 1 ==> lex_lt(#[trigger] dd[i].0, key)) by {
            assert(forall|i: int| 0 <= i < pos - 1 ==> dd[i] == d[i + 1]);
        }
        assert(pos - 1 < dd.len() ==> dd[pos - 1] == d[pos]);
        lemma_sorted_insert_at(dd, key, v, pos - 1);
        assert(sorted_insert(d, key, v) == seq![d[0]] + sorted_insert(dd, key, v));
        assert(seq![d[0]] + dd.insert(pos - 1, (key, v)) =~= d.insert(pos, (key, v)));
        if spec_has_key(d, key) {
            let i = choose|i: int| 0 <= i < d.len() && d[i].0 == key;
            if i == 0 {
                lemma_lex_lt_irrefl(key);
            } else {
                assert(dd[i - 1].0 == key);
                assert(spec_has_key(dd, key));
            }
        }
    }
}

/// Finds where `key` belongs among sorted entries: the index of the first
/// entry not below it. Reports whether the key is already present; if it is
/// not, inserting at the returned position is exactly `sorted_insert`.
fn find_insert_pos(entries: &Vec<(Vec<u8>, BencodedValue)>, key: &[u8]) -> (r: (usize, bool))
    requires
        entries_sorted(entries_dv(entries@)),
    ensures
        ({
            let ed = entries_dv(entries@);
            let (pos, dup) = r;
            &&& pos <= entries@.len()
            &&& (dup ==> spec_has_key(ed, key@))
            &&& (!dup ==> !spec_has_key(ed, key@) && forall|v: SpecValue|
                #[trigger] sorted_insert(ed, key@, v) == ed.insert(pos as int, (key@, v)))
        }),
{
    let ghost ed = entries_dv(entries@);
    proof {
        lemma_entries_dv_props(entries@);
    }
    let mut i: usize = 0;
    loop
        invariant
            0 <= i <= entries@.len(),
            ed == entries_dv(entries@),
            ed.len() == entries@.len(),
            entries_sorted(ed),
            forall|j: int| 0 <= j < i ==> lex_lt(#[trigger] ed[j].0, key@),
        decreases entries@.len() - i,
    {
        proof {
            lemma_entries_dv_props(entries@);
        }
        if i >= entries.len() {
            proof {
                assert forall|v: SpecValue| #[trigger] sorted_insert(ed, key@, v) == ed.insert(
                    i as int,
                    (key@, v),
                ) by {
                    lemma_sorted_insert_at(ed, key@, v, i as int);
                }
                lemma_sorted_insert_at(ed, key@, SpecValue::Integer(0), i as int);
            }
            return (i, false);
        }
        if lex_lt_bytes(entries[i].0.as_slice(), key) {
            proof {
                assert(ed[i as int].0 == entries@[i as int].0@);
            }
            i += 1;
        } else {
            if bytes_eq(entries[i].0.as_slice(), key) {
                proof {
                    assert(ed[i as int].0 == key@);
                }
                return (i, true);
            }
            proof {
                assert(ed[i as int].0 != key@);
                assert(!lex_lt(ed[i as int].0, key@));
                assert forall|v: SpecValue| #[trigger] sorted_insert(ed, key@, v) == ed.insert(
                    i as int,
                    (key@, v),
                ) by {
                    lemma_sorted_insert_at(ed, key@, v, i as int);
                }
                lemma_sorted_insert_at(ed, key@, SpecValue::Integer(0), i as int);
            }
            return (i, false);
        }
    }
}

/// Decodes exactly one bencoded value starting at `from`, returning the
/// value and the count of bytes consumed, so a caller can continue right
/// after it. Exact, error for error, against the grammar `spec_decode`.
pub fn decode_value_at(s: &[u8], from: usize) -> (r: Result<(BencodedValue, usize), TorrentError>)
    requires
        from <= s@.len(),
    ensures
        match r {
            Ok((v, n)) => spec_decode(s@.skip(from as int)) == Ok::<
                (SpecValue, int),
                TorrentError,
            >((v.dv(), n as int)) && v.well_formed() && 2 <= n && from + n <= s@.len(),
            Err(e) => spec_decode(s@.skip(from as int)) == Err::<(SpecValue, int), TorrentError>(
                e,
            ),
        },
    decreases s@.len() - from,
{
    let ghost t = s@.skip(from as int);
    proof {
        assert(forall|x: int| 0 <= x < t.len() ==> t[x] == s@[from + x]);
    }
    let len = s.len();
    if from >= len {
        return Err(TorrentError::MalformedInputError);
    }
    let c = s[from];
    proof {
        assert(t[0] == c);
    }
    if c >= DIGIT_ZERO && c <= DIGIT_NINE {
        match decode_bencoded_bstring(s, from) {
            Ok((b, n)) => Ok((BencodedValue::BString(b), n)),
            Err(e) => Err(e),
        }
    } else if c == INT_MARK {
        match decode_bencoded_integer(s, from) {
            Ok((v, n)) => Ok((BencodedValue::Integer(v), n)),
            Err(e) => Err(e),
        }
    } else if c == LIST_MARK {
        let mut vals: Vec<BencodedValue> = Vec::new();
        let mut idx = from + 1;
        proof {
            assert(seq_dv(vals@) =~= Seq::<SpecValue>::empty());
        }
        loop
            invariant
                len == s@.len(),
                from < len,
                t == s@.skip(from as int),
                t.len() == len - from,
                s@[from as int] == LIST_MARK,
                t[0] == LIST_MARK,
                !is_digit_byte(t[0]),
                t[0] != INT_MARK,
                from + 1 <= idx <= len,
                spec_decode_items(s@.skip(from + 1), Seq::empty()) == (match spec_decode_items(
                    s@.skip(idx as int),
                    seq_dv(vals@),
                ) {
                    Ok((l, m)) => Ok::<(Seq<SpecValue>, int), TorrentError>(
                        (l, (idx - (from + 1)) + m),
                    ),
                    Err(e) => Err::<(Seq<SpecValue>, int), TorrentError>(e),
                }),
            decreases len - idx,
        {
            if idx >= len {
                proof {
                    assert(s@.skip(idx as int).len() == 0);
                    assert(t.skip(1) =~= s@.skip(from + 1));
                }
                return Err(TorrentError::MalformedInputError);
            }
            if s[idx] == END_MARK {
                let n_total = idx + 1 - from;
                proof {
                    assert(s@.skip(idx as int)[0] == END_MARK);
                    assert(t.skip(1) =~= s@.skip(from + 1));
                    lemma_spec_decode_wf(t);
                }
                return Ok((BencodedValue::List(vals), n_total));
            }
            match decode_value_at(s, idx) {
                Err(e) => {
                    proof {
                        assert(s@.skip(idx as int)[0] == s@[idx as int]);
                        assert(t.skip(1) =~= s@.skip(from + 1));
                    }
                    return Err(e);
                },
                Ok((v, n)) => {
                    let ghost old_vals = vals@;
                    let ghost old_idx = idx as int;
                    vals.push(v);
                    idx += n;
                    proof {
                        lemma_seq_dv_push(old_vals, v);
                        let tc = s@.skip(old_idx);
                        assert(tc[0] == s@[old_idx]);
                        assert(tc[0] != END_MARK);
                        assert(tc.skip(n as int) =~= s@.skip(old_idx + n));
                    }
                },
            }
        }
    } else if c == DICT_MARK {
        let mut entries: Vec<(Vec<u8>, BencodedValue)> = Vec::new();
        let mut idx = from + 1;
        proof {
            assert(entries_dv(entries@) =~= Seq::<(Seq<u8>, SpecValue)>::empty());
        }
        loop
            invariant
                len == s@.len(),
                from < len,
                t == s@.skip(from as int),
                t.len() == len - from,
                s@[from as int] == DICT_MARK,
                t[0] == DICT_MARK,
                !is_digit_byte(t[0]),
                t[0] != INT_MARK,
                t[0] != LIST_MARK,
                from + 1 <= idx <= len,
                entries_sorted(entries_dv(entries@)),
                spec_decode_entries(s@.skip(from + 1), Seq::empty()) == (match spec_decode_entries(
                    s@.skip(idx as int),
                    entries_dv(entries@),
                ) {
                    Ok((d, m)) => Ok::<(Seq<(Seq<u8>, SpecValue)>, int), TorrentError>(
                        (d, (idx - (from + 1)) + m),
                    ),
                    Err(e) => Err::<(Seq<(Seq<u8>, SpecValue)>, int), TorrentError>(e),
                }),
            decreases len - idx,
        {
            if idx >= len {
                proof {
                    assert(s@.skip(idx as int).len() == 0);
                    assert(t.skip(1) =~= s@.skip(from + 1));
                }
                return Err(TorrentError::MalformedInputError);
            }
            if s[idx] == END_MARK {
                let n_total = idx + 1 - from;
                proof {
                    assert(s@.skip(idx as int)[0] == END_MARK);
                    assert(t.skip(1) =~= s@.skip(from + 1));
                    lemma_spec_decode_wf(t);
                }
                return Ok((BencodedValue::Dictionary(entries), n_total));
            }
            proof {
                assert(s@.skip(idx as int)[0] == s@[idx as int]);
                assert(s@.skip(idx as int)[0] != END_MARK);
            }
            match decode_bencoded_bstring(s, idx) {
                Err(e) => {
                    proof {
                        assert(t.skip(1) =~= s@.skip(from + 1));
                    }
                    return Err(e);
                },
                Ok((key, kn)) => {
                    let (pos, dup) = find_insert_pos(&entries, key.as_slice());
                    if dup {
                        proof {
                            assert(t.skip(1) =~= s@.skip(from + 1));
                        }
                        return Err(TorrentError::DuplicateKeyError);
                    }
                    match decode_value_at(s, idx + kn) {
                        Err(e) => {
                            proof {
                                let tc = s@.skip(idx as int);
                                assert(tc.skip(kn as int) =~= s@.skip(idx + kn));
                                assert(t.skip(1) =~= s@.skip(from + 1));
                            }
                            return Err(e);
                        },
                        Ok((v, vn)) => {
                            let ghost old_entries = entries@;
                            let ghost old_idx = idx as int;
                            let ghost keyv = key@;
                            let ghost vdv = v.dv();
                            let ghost ed = entries_dv(entries@);
                            entries.insert(pos, (key, v));
                            idx += kn + vn;
                            proof {
                                let tc = s@.skip(old_idx);
                                assert(tc.skip(kn as int) =~= s@.skip(old_idx + kn));
                                assert(tc.skip(kn + vn) =~= s@.skip(old_idx + kn + vn));
                                assert(entries@[pos as int].0@ == keyv);
                                assert(entries@[pos as int].1.dv() == vdv);
                                lemma_entries_dv_insert(
                                    old_entries,
                                    pos as int,
                                    entries@[pos as int],
                                );
                                assert(entries_dv(entries@) == ed.insert(
                                    pos as int,
                                    (keyv, vdv),
                                ));
                                lemma_sorted_insert(ed, keyv, vdv);
                            }
                        },
                    }
                },
            }
        }
    } else {
        Err(TorrentError::MalformedInputError)
    }
}

/// Decodes the single bencoded value at the head of `encoded_value`,
/// ignoring any bytes after it, as the grammar `spec_decode` says.
pub fn decode_bencoded_value(encoded_value: &[u8]) -> (r: Result<BencodedValue, TorrentError>)
    ensures
        match r {
            Ok(v) => (match spec_decode(encoded_value@) {
                Ok((sv, n)) => sv == v.dv(),
                Err(_) => false,
            }) && v.well_formed(),
            Err(e) => spec_decode(encoded_value@) == Err::<(SpecValue, int), TorrentError>(e),
        },
{
    proof {
        assert(encoded_value@.skip(0) =~= encoded_value@);
    }
    match decode_value_at(encoded_value, 0) {
        Ok((v, _n)) => Ok(v),
        Err(e) => Err(e),
    }
}

/// The canonical encoding of any value is at least two bytes and never
/// opens with the terminator byte.
proof fn lemma_encode_head(v: SpecValue)
    ensures
        spec_encode(v).len() >= 2,
        spec_encode(v)[0] != END_MARK,
{
    match v {
        SpecValue::BString(s) => {
            lemma_spec_dec_nat_props(s.len());
            let a = spec_dec_nat(s.len());
            assert(spec_encode(v)[0] == a[0]);
            assert(is_digit_byte(a[0]));
        },
        SpecValue::Integer(n) => {},
        SpecValue::List(l) => {},
        SpecValue::Dictionary(d) => {},
    }
}

/// Decoding the encoding of a byte string, with anything after it, yields
/// that byte string and consumes exactly the encoding.
proof fn lemma_decode_bstring_enc(s: Seq<u8>, rest: Seq<u8>)
    ensures
        spec_decode_bstring(spec_enc_bstring(s) + rest) == Ok::<(Seq<u8>, int), TorrentError>(
            (s, spec_enc_bstring(s).len() as int),
        ),
{
    let a = spec_dec_nat(s.len());
    let t = spec_enc_bstring(s) + rest;
    lemma_spec_dec_nat_props(s.len());
    let k = a.len() as int;
    assert(forall|i: int| 0 <= i < k ==> t[i] == a[i]);
    assert(t[k] == COLON_BYTE);
    assert(forall|i: int| 0 <= i < k ==> is_digit_byte(t[i]));
    assert(!is_digit_byte(COLON_BYTE));
    lemma_digits_prefix_len_is(t, k);
    assert(t.take(k) =~= a);
    assert(parse_digits(t.take(k)) == s.len());
    assert(k + 1 + s.len() <= t.len());
    assert(t.subrange(k + 1, k + 1 + s.len() as int) =~= s);
}

/// A terminator appended after terminator-free bytes is the first one found.
proof fn lemma_find_end_mark_prefix(x: Seq<u8>, rest: Seq<u8>)
    requires
        forall|i: int| 0 <= i < x.len() ==> x[i] != END_MARK,
    ensures
        find_end_mark(x + seq![END_MARK] + rest) == Some(x.len() as int),
    decreases x.len(),
{
    let t = x + seq![END_MARK] + rest;
    if x.len() == 0 {
        assert(t[0] == END_MARK);
    } else {
        assert(t[0] == x[0]);
        assert(t.drop_first() =~= x.drop_first() + seq![END_MARK] + rest);
        assert(forall|i: int| 0 <= i < x.len() - 1 ==> x.drop_first()[i] == x[i + 1]);
        lemma_find_end_mark_prefix(x.drop_first(), rest);
    }
}

/// The decimal rendering of a signed value parses back to that value.
proof fn lemma_parse_signed_dec(n: int)
    ensures
        spec_parse_signed(spec_dec_int(n)) == Some(n),
{
    if n >= 0 {
        lemma_spec_dec_nat_props(n as nat);
        let s = spec_dec_nat(n as nat);
        assert(is_digit_byte(s[0]));
        assert(s[0] != PLUS_BYTE && s[0] != MINUS_BYTE);
    } else {
        lemma_spec_dec_nat_props((-n) as nat);
        let s = spec_dec_int(n);
        let d = spec_dec_nat((-n) as nat);
        assert(s[0] == MINUS_BYTE);
        assert(s.drop_first() =~= d);
        assert(spec_parse_signed(s) == Some(-parse_digits(d)));
    }
}

/// Decoding the encoding of an integer, with anything after it, yields that
/// integer and consumes exactly the encoding.
proof fn lemma_decode_integer_enc(n: i64, rest: Seq<u8>)
    ensures
        spec_decode_integer(spec_encode(SpecValue::Integer(n)) + rest) == Ok::<
            (SpecValue, int),
            TorrentError,
        >((SpecValue::Integer(n), spec_encode(SpecValue::Integer(n)).len() as int)),
{
    let di = spec_dec_int(n as int);
    let t = spec_encode(SpecValue::Integer(n)) + rest;
    assert(forall|i: int| 0 <= i < di.len() ==> di[i] != END_MARK) by {
        if n >= 0 {
            lemma_spec_dec_nat_props(n as nat);
        } else {
            lemma_spec_dec_nat_props((-n) as nat);
            assert(forall|i: int| 1 <= i < di.len() ==> di[i] == spec_dec_nat((-n) as nat)[i
                - 1]);
        }
    }
    assert(t.drop_first() =~= di + seq![END_MARK] + rest);
    lemma_find_end_mark_prefix(di, rest);
    assert(find_end_mark(t.drop_first()) == Some(di.len() as int));
    assert(t.subrange(1, 1 + di.len() as int) =~= di);
    lemma_parse_signed_dec(n as int);
}

/// Inserting a key above every present key appends the entry at the end.
proof fn lemma_sorted_insert_append(d: Seq<(Seq<u8>, SpecValue)>, key: Seq<u8>, v: SpecValue)
    requires
        forall|i: int| 0 <= i < d.len() ==> lex_lt(#[trigger] d[i].0, key),
    ensures
        sorted_insert(d, key, v) == d.push((key, v)),
    decreases d.len(),
{
    if d.len() == 0 {
        assert(sorted_insert(d, key, v) =~= d.push((key, v)));
    } else {
        if lex_lt(key, d[0].0) {
            lemma_lex_lt_trans(key, d[0].0, key);
            lemma_lex_lt_irrefl(key);
        }
        let dd = d.drop_first();
        assert(forall|i: int| 0 <= i < dd.len() ==> dd[i] == d[i + 1]);
        lemma_sorted_insert_append(dd, key, v);
        assert(seq![d[0]] + dd.push((key, v)) =~= d.push((key, v)));
    }
}

/// The core of the round-trip law: decoding the canonical encoding of a
/// well-formed value, whatever follows it, returns exactly that value and
/// consumes exactly its encoding.
pub proof fn lemma_decode_encode(v: SpecValue, rest: Seq<u8>)
    requires
        wf(v),
    ensures
        spec_decode(spec_encode(v) + rest) == Ok::<(SpecValue, int), TorrentError>(
            (v, spec_encode(v).len() as int),
        ),
    decreases v, 0int,
{
    let e = spec_encode(v);
    let t = e + rest;
    match v {
        SpecValue::BString(s) => {
            lemma_spec_dec_nat_props(s.len());
            let a = spec_dec_nat(s.len());
            assert(t[0] == a[0]);
            assert(is_digit_byte(t[0]));
            assert(t =~= spec_enc_bstring(s) + rest);
            lemma_decode_bstring_enc(s, rest);
        },
        SpecValue::Integer(n) => {
            assert(t[0] == INT_MARK);
            assert(!is_digit_byte(INT_MARK));
            lemma_decode_integer_enc(n, rest);
        },
        SpecValue::List(l) => {
            assert(t[0] == LIST_MARK);
            assert(t.skip(1) =~= spec_encode_items(l) + seq![END_MARK] + rest);
            lemma_decode_encode_items(l, Seq::empty(), rest);
            assert(Seq::<SpecValue>::empty() + l =~= l);
        },
        SpecValue::Dictionary(d) => {
            assert(t[0] == DICT_MARK);
            assert(t.skip(1) =~= spec_encode_entries(d) + seq![END_MARK] + rest);
            assert(Seq::<(Seq<u8>, SpecValue)>::empty() + d =~= d);
            lemma_decode_encode_entries(d, Seq::empty(), rest);
        },
    }
}

/// Companion of `lemma_decode_encode` for the items of a list.
proof fn lemma_decode_encode_items(l: Seq<SpecValue>, acc: Seq<SpecValue>, rest: Seq<u8>)
    requires
        forall|i: int| 0 <= i < l.len() ==> wf(#[trigger] l[i]),
    ensures
        spec_decode_items(spec_encode_items(l) + seq![END_MARK] + rest, acc) == Ok::<
            (Seq<SpecValue>, int),
            TorrentError,
        >((acc + l, spec_encode_items(l).len() as int + 1)),
    decreases l, 1int,
{
    let t = spec_encode_items(l) + seq![END_MARK] + rest;
    if l.len() == 0 {
        assert(spec_encode_items(l) =~= Seq::<u8>::empty());
        assert(t[0] == END_MARK);
        assert(acc + l =~= acc);
    } else {
        let v0 = l[0];
        let e0 = spec_encode(v0);
        let lt = l.drop_first();
        assert(forall|i: int| 0 <= i < lt.len() ==> lt[i] == l[i + 1]);
        let rest2 = spec_encode_items(lt) + seq![END_MARK] + rest;
        assert(t =~= e0 + rest2);
        lemma_encode_head(v0);
        assert(t[0] == e0[0]);
        assert(t[0] != END_MARK);
        lemma_decode_encode(v0, rest2);
        assert(spec_decode(t) == Ok::<(SpecValue, int), TorrentError>((v0, e0.len() as int)));
        assert(1 <= e0.len() <= t.len());
        assert(t.skip(e0.len() as int) =~= rest2);
        lemma_decode_encode_items(lt, acc.push(v0), rest);
        assert(acc.push(v0) + lt =~= acc + l);
    }
}

/// Companion of `lemma_decode_encode` for dictionary entries: the entries
/// arrive in sorted order, each key above everything already accumulated,
/// so each insertion is an append and no key repeats.
proof fn lemma_decode_encode_entries(
    d: Seq<(Seq<u8>, SpecValue)>,
    acc: Seq<(Seq<u8>, SpecValue)>,
    rest: Seq<u8>,
)
    requires
        entries_sorted(acc + d),
        forall|i: int| 0 <= i < d.len() ==> wf(#[trigger] d[i].1),
    ensures
        spec_decode_entries(spec_encode_entries(d) + seq![END_MARK] + rest, acc) == Ok::<
            (Seq<(Seq<u8>, SpecValue)>, int),
            TorrentError,
        >((acc + d, spec_encode_entries(d).len() as int + 1)),
    decreases d, 1int,
{
    let t = spec_encode_entries(d) + seq![END_MARK] + rest;
    if d.len() == 0 {
        assert(spec_encode_entries(d) =~= Seq::<u8>::empty());
        assert(t[0] == END_MARK);
        assert(acc + d =~= acc);
    } else {
        let k0 = d[0].0;
        let v0 = d[0].1;
        let kb = spec_enc_bstring(k0);
        let e0 = spec_encode(v0);
        let dt = d.drop_first();
        assert(forall|i: int| 0 <= i < dt.len() ==> dt[i] == d[i + 1]);
        let rest3 = spec_encode_entries(dt) + seq![END_MARK] + rest;
        let rest2 = e0 + rest3;
        assert(t =~= kb + rest2);
        lemma_spec_dec_nat_props(k0.len());
        assert(t[0] == spec_dec_nat(k0.len())[0]);
        assert(is_digit_byte(t[0]));
        assert(t[0] != END_MARK);
        lemma_decode_bstring_enc(k0, rest2);
        assert(spec_decode_bstring(t) == Ok::<(Seq<u8>, int), TorrentError>(
            (k0, kb.len() as int),
        ));
        assert(1 <= kb.len() <= t.len());
        // The key is above everything already accumulated, so it is fresh.
        assert(forall|i: int| 0 <= i < acc.len() ==> lex_lt(#[trigger] acc[i].0, k0)) by {
            assert(forall|i: int| 0 <= i < acc.len() ==> (acc + d)[i] == acc[i]);
            assert((acc + d)[acc.len() as int] == d[0]);
        }
        assert(!spec_has_key(acc, k0)) by {
            if spec_has_key(acc, k0) {
                let i = choose|i: int| 0 <= i < acc.len() && acc[i].0 == k0;
                assert(lex_lt(acc[i].0, k0));
                lemma_lex_lt_irrefl(k0);
            }
        }
        assert(t.skip(kb.len() as int) =~= rest2);
        lemma_decode_encode(v0, rest3);
        assert(spec_decode(rest2) == Ok::<(SpecValue, int), TorrentError>(
            (v0, e0.len() as int),
        ));
        lemma_sorted_insert_append(acc, k0, v0);
        assert(sorted_insert(acc, k0, v0) == acc.push(d[0]));
        assert(t.skip(kb.len() as int + e0.len() as int) =~= rest3);
        assert(acc.push(d[0]) + dt =~= acc + d);
        lemma_decode_encode_entries(dt, acc.push(d[0]), rest);
    }
}

/// Round-trip law: for every well-formed value (dictionaries in sorted-key
/// form), decoding the canonical encoding gives back exactly that value and
/// consumes the whole encoding.
pub proof fn lemma_round_trip(v: SpecValue)
    requires
        wf(v),
    ensures
        spec_decode(spec_encode(v)) == Ok::<(SpecValue, int), TorrentError>(
            (v, spec_encode(v).len() as int),
        ),
{
    lemma_decode_encode(v, Seq::empty());
    assert(spec_encode(v) + Seq::empty() =~= spec_encode(v));
}

/// Self-length law: in a stream of two encoded values, decoding the first
/// consumes exactly its own encoded length — the length the value reports
/// for itself — so decoding the concatenation never misaligns and the
/// second value is found exactly where the first one ends.
pub proof fn lemma_stream_alignment(v1: SpecValue, v2: SpecValue)
    requires
        wf(v1),
        wf(v2),
    ensures
        spec_decode(spec_encode(v1) + spec_encode(v2)) == Ok::<(SpecValue, int), TorrentError>(
            (v1, spec_encode(v1).len() as int),
        ),
        spec_decode((spec_encode(v1) + spec_encode(v2)).skip(spec_encode(v1).len() as int))
            == Ok::<(SpecValue, int), TorrentError>((v2, spec_encode(v2).len() as int)),
{
    lemma_decode_encode(v1, spec_encode(v2));
    lemma_round_trip(v2);
    assert((spec_encode(v1) + spec_encode(v2)).skip(spec_encode(v1).len() as int) =~= spec_encode(
        v2,
    ));
}

} // verus!
