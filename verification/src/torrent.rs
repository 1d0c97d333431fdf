//! The torrent metadata model: the typed descriptor built from a decoded
//! bencode dictionary, the SHA-1 info-hash of the canonically re-encoded
//! `info` dictionary, and the ordered hex piece hashes.

use vstd::prelude::*;
use crate::bencode_value::BencodedValue;
use crate::bencode_value::SpecValue;
use crate::bencode_value::dict_get;
use crate::bencode_value::entries_sorted;
use crate::bencode_value::spec_encode;
use crate::bencode_value::spec_lookup;
use crate::byteops::lemma_lex_lt_connected;
use crate::byteops::lemma_lex_lt_irrefl;
use crate::byteops::lemma_lex_lt_trans;
use crate::byteops::lex_lt;
use crate::errors::TorrentError;
use sha1::Digest;

verus! {

/// The lowercase hex digit for a value below sixteen.
pub open spec fn hex_digit(n: int) -> char {
    if n < 10 {
        ((48 + n) as u8) as char
    } else {
        ((87 + n) as u8) as char
    }
}

/// The lowercase hex rendering of a byte sequence: two digits per byte, high
/// nibble first, in input order.
pub open spec fn hex_of(b: Seq<u8>) -> Seq<char> {
    Seq::new(
        2 * b.len(),
        |i: int|
            if i % 2 == 0 {
                hex_digit(b[i / 2] as int / 16)
            } else {
                hex_digit(b[i / 2] as int % 16)
            },
    )
}

/// The SHA-1 digest of a byte sequence, as the sha1 crate computes it. The
/// digest is a function of the input bytes alone.
pub uninterp spec fn sha1_of(b: Seq<u8>) -> Seq<u8>;

/// What `String::from_utf8_lossy` makes of a byte sequence: a function of
/// the bytes alone.
pub uninterp spec fn lossy_decode(b: Seq<u8>) -> Seq<char>;

/// Relies on hex::encode: each input byte becomes exactly two lowercase hex
/// digits, high nibble first, in input order.
#[verifier::external_body]
fn hex_encode(b: &Vec<u8>) -> (r: String)
    ensures
        r@ == hex_of(b@),
{
    hex::encode(b.as_slice())
}

/// Relies on sha1::Sha1 (via the Digest trait): the digest depends on the
/// input bytes alone and is always 20 bytes.
#[verifier::external_body]
fn sha1_digest(b: &Vec<u8>) -> (r: Vec<u8>)
    ensures
        r@ == sha1_of(b@),
        r@.len() == 20,
{
    let mut hasher = sha1::Sha1::new();
    hasher.update(b.as_slice());
    let out = hasher.finalize();
    out.to_vec()
}

/// Relies on String::from_utf8_lossy: the result depends on the input bytes
/// alone.
#[verifier::external_body]
pub(crate) fn lossy_utf8_string(b: &Vec<u8>) -> (r: String)
    ensures
        r@ == lossy_decode(b@),
{
    String::from_utf8_lossy(b.as_slice()).to_string()
}

/// Copies a byte slice into an owned vector.
pub fn copy_bytes(b: &[u8]) -> (r: Vec<u8>)
    ensures
        r@ == b@,
{
    let mut out: Vec<u8> = Vec::new();
    crate::bencode_value::append_bytes(&mut out, b);
    proof {
        assert(Seq::<u8>::empty() + b@ =~= b@);
    }
    out
}

/// The raw bytes of the key `name`.
pub open spec fn name_key() -> Seq<u8> {
    seq![110u8, 97u8, 109u8, 101u8]
}

/// The raw bytes of the key `length`.
pub open spec fn length_key() -> Seq<u8> {
    seq![108u8, 101u8, 110u8, 103u8, 116u8, 104u8]
}

/// The raw bytes of the key `piece length`.
pub open spec fn piece_length_key() -> Seq<u8> {
    seq![112u8, 105u8, 101u8, 99u8, 101u8, 32u8, 108u8, 101u8, 110u8, 103u8, 116u8, 104u8]
}

/// The raw bytes of the key `pieces`.
pub open spec fn pieces_key() -> Seq<u8> {
    seq![112u8, 105u8, 101u8, 99u8, 101u8, 115u8]
}

/// The raw bytes of the key `announce`.
pub open spec fn announce_key() -> Seq<u8> {
    seq![97u8, 110u8, 110u8, 111u8, 117u8, 110u8, 99u8, 101u8]
}

/// The raw bytes of the key `info`.
pub open spec fn info_key() -> Seq<u8> {
    seq![105u8, 110u8, 102u8, 111u8]
}

fn make_name_key() -> (r: Vec<u8>)
    ensures
        r@ == name_key(),
{
    let mut v: Vec<u8> = Vec::new();
    v.push(110);
    v.push(97);
    v.push(109);
    v.push(101);
    proof {
        assert(v@ =~= name_key());
    }
    v
}

fn make_length_key() -> (r: Vec<u8>)
    ensures
        r@ == length_key(),
{
    let mut v: Vec<u8> = Vec::new();
    v.push(108);
    v.push(101);
    v.push(110);
    v.push(103);
    v.push(116);
    v.push(104);
    proof {
        assert(v@ =~= length_key());
    }
    v
}

fn make_piece_length_key() -> (r: Vec<u8>)
    ensures
        r@ == piece_length_key(),
{
    let mut v: Vec<u8> = Vec::new();
    v.push(112);
    v.push(105);
    v.push(101);
    v.push(99);
    v.push(101);
    v.push(32);
    v.push(108);
    v.push(101);
    v.push(110);
    v.push(103);
    v.push(116);
    v.push(104);
    proof {
        assert(v@ =~= piece_length_key());
    }
    v
}

fn make_pieces_key() -> (r: Vec<u8>)
    ensures
        r@ == pieces_key(),
{
    let mut v: Vec<u8> = Vec::new();
    v.push(112);
    v.push(105);
    v.push(101);
    v.push(99);
    v.push(101);
    v.push(115);
    proof {
        assert(v@ =~= pieces_key());
    }
    v
}

fn make_announce_key() -> (r: Vec<u8>)
    ensures
        r@ == announce_key(),
{
    let mut v: Vec<u8> = Vec::new();
    v.push(97);
    v.push(110);
    v.push(110);
    v.push(111);
    v.push(117);
    v.push(110);
    v.push(99);
    v.push(101);
    proof {
        assert(v@ =~= announce_key());
    }
    v
}

fn make_info_key() -> (r: Vec<u8>)
    ensures
        r@ == info_key(),
{
    let mut v: Vec<u8> = Vec::new();
    v.push(105);
    v.push(110);
    v.push(102);
    v.push(111);
    proof {
        assert(v@ =~= info_key());
    }
    v
}

/// Whether a decoded `info` value carries everything the metadata model
/// needs: a dictionary with a byte-string `name`, a non-negative integer
/// `length`, a positive integer `piece length`, and a `pieces` byte string
/// whose length is a multiple of twenty.
pub open spec fn spec_info_ok(iv: SpecValue) -> bool {
    match iv {
        SpecValue::Dictionary(d) => {
            &&& (spec_lookup(d, name_key()) matches Some(SpecValue::BString(_)))
            &&& (spec_lookup(d, length_key()) matches Some(SpecValue::Integer(n)) && n >= 0)
            &&& (spec_lookup(d, piece_length_key()) matches Some(SpecValue::Integer(p)) && p > 0)
            &&& (spec_lookup(d, pieces_key()) matches Some(SpecValue::BString(ps)) && ps.len() % 20
                == 0)
        },
        _ => false,
    }
}

/// The typed descriptor of the `info` dictionary: the lossily decoded name,
/// the sizes, the raw concatenated piece digests, the hex piece hashes in
/// order, and the hex SHA-1 info-hash of the canonically re-encoded `info`
/// value.
#[derive(Debug)]
pub struct TorrentFileInfo {
    pub info_hash: String,
    pub name: String,
    pub length: u64,
    pub piece_length: u64,
    pub raw_pieces: Vec<u8>,
    pub piece_hashes: Vec<String>,
}

impl TorrentFileInfo {
    /// Splits the raw `pieces` bytes into consecutive 20-byte chunks and hex
    /// encodes each, preserving order.
    pub fn get_piece_hashes(pieces: &Vec<u8>) -> (r: Vec<String>)
        requires
            pieces@.len() % 20 == 0,
        ensures
            r@.len() == pieces@.len() / 20,
            forall|i: int| 0 <= i < r@.len() ==> (#[trigger] r@[i])@ == hex_of(
                pieces@.subrange(20 * i, 20 * i + 20),
            ),
    {
        let mut piece_hashes: Vec<String> = Vec::new();
        let mut index: usize = 0;
        while index < pieces.len()
            invariant
                pieces@.len() % 20 == 0,
                0 <= index <= pieces@.len(),
                index % 20 == 0,
                piece_hashes@.len() == index / 20,
                forall|i: int| 0 <= i < piece_hashes@.len() ==> (#[trigger] piece_hashes@[i])@
                    == hex_of(pieces@.subrange(20 * i, 20 * i + 20)),
            decreases pieces@.len() - index,
        {
            proof {
                assert(index + 20 <= pieces@.len()) by {
                    assert(index < pieces@.len());
                    assert(pieces@.len() - index >= 20) by (nonlinear_arith)
                        requires
                            pieces@.len() % 20 == 0,
                            index % 20 == 0,
                            index < pieces@.len(),
                    ;
                }
            }
            let mut chunk: Vec<u8> = Vec::new();
            let mut j = index;
            while j < index + 20
                invariant
                    index <= j <= index + 20,
                    index + 20 <= pieces@.len(),
                    pieces@.len() <= usize::MAX,
                    chunk@.len() == j - index,
                    forall|x: int| 0 <= x < chunk@.len() ==> chunk@[x] == pieces@[index + x],
                decreases index + 20 - j,
            {
                chunk.push(pieces[j]);
                j += 1;
            }
            proof {
                assert(chunk@ =~= pieces@.subrange(index as int, index as int + 20));
            }
            let piece_hash = hex_encode(&chunk);
            piece_hashes.push(piece_hash);
            index += 20;
            proof {
                assert(piece_hashes@.len() == index / 20) by (nonlinear_arith)
                    requires
                        piece_hashes@.len() == (index - 20) / 20 + 1,
                        index % 20 == 0,
                        index >= 20,
                ;
                assert(forall|i: int|
                    0 <= i < piece_hashes@.len() - 1 ==> piece_hashes@[i]
                        == piece_hashes@.drop_last()[i]);
                assert(20 * ((index - 20) / 20) == index - 20) by (nonlinear_arith)
                    requires
                        index % 20 == 0,
                        index >= 20,
                ;
            }
        }
        piece_hashes
    }

    /// Builds the descriptor from a decoded `info` value. Every absent,
    /// mistyped or out-of-range field is a `MissingFieldError`; so is a
    /// `pieces` field whose length is not a multiple of twenty.
    pub fn new(bencoded_info: &BencodedValue) -> (r: Result<TorrentFileInfo, TorrentError>)
        ensures
            r is Ok <==> spec_info_ok(bencoded_info.dv()),
            match r {
                Ok(t) => {
                    let d = bencoded_info.dv()->Dictionary_0;
                    &&& t.info_hash@ == hex_of(sha1_of(spec_encode(bencoded_info.dv())))
                    &&& t.info_hash@.len() == 40
                    &&& t.name@ == lossy_decode(
                        spec_lookup(d, name_key())->Some_0->BString_0,
                    )
                    &&& t.length as int == spec_lookup(d, length_key())->Some_0->Integer_0
                    &&& t.piece_length as int == spec_lookup(
                        d,
                        piece_length_key(),
                    )->Some_0->Integer_0
                    &&& t.raw_pieces@ == spec_lookup(d, pieces_key())->Some_0->BString_0
                    &&& t.piece_hashes@.len() == t.raw_pieces@.len() / 20
                    &&& forall|i: int| 0 <= i < t.piece_hashes@.len() ==> (
                        #[trigger] t.piece_hashes@[i])@ == hex_of(
                        t.raw_pieces@.subrange(20 * i, 20 * i + 20),
                    )
                },
                Err(e) => e == TorrentError::MissingFieldError,
            },
    {
        let info_bytes = bencoded_info.encode();
        let dictionary = match bencoded_info.extract_dict() {
            Some(d) => d,
            None => {
                return Err(TorrentError::MissingFieldError);
            },
        };
        let name_k = make_name_key();
        let name = match dict_get(dictionary, name_k.as_slice()) {
            Some(v) => match v.extract_bstring() {
                Some(b) => lossy_utf8_string(b),
                None => {
                    return Err(TorrentError::MissingFieldError);
                },
            },
            None => {
                return Err(TorrentError::MissingFieldError);
            },
        };
        let length_k = make_length_key();
        let length = match dict_get(dictionary, length_k.as_slice()) {
            Some(v) => match v.extract_integer() {
                Some(n) => {
                    if n < 0 {
                        return Err(TorrentError::MissingFieldError);
                    }
                    n as u64
                },
                None => {
                    return Err(TorrentError::MissingFieldError);
                },
            },
            None => {
                return Err(TorrentError::MissingFieldError);
            },
        };
        let piece_length_k = make_piece_length_key();
        let piece_length = match dict_get(dictionary, piece_length_k.as_slice()) {
            Some(v) => match v.extract_integer() {
                Some(n) => {
                    if n <= 0 {
                        return Err(TorrentError::MissingFieldError);
                    }
                    n as u64
                },
                None => {
                    return Err(TorrentError::MissingFieldError);
                },
            },
            None => {
                return Err(TorrentError::MissingFieldError);
            },
        };
        let pieces_k = make_pieces_key();
        let pieces = match dict_get(dictionary, pieces_k.as_slice()) {
            Some(v) => match v.extract_bstring() {
                Some(b) => {
                    if b.len() % 20 != 0 {
                        return Err(TorrentError::MissingFieldError);
                    }
                    copy_bytes(b.as_slice())
                },
                None => {
                    return Err(TorrentError::MissingFieldError);
                },
            },
            None => {
                return Err(TorrentError::MissingFieldError);
            },
        };
        let digest = sha1_digest(&info_bytes);
        let info_hash = hex_encode(&digest);
        let piece_hashes = TorrentFileInfo::get_piece_hashes(&pieces);
        Ok(
            TorrentFileInfo {
                info_hash,
                name,
                length,
                piece_length,
                raw_pieces: pieces,
                piece_hashes,
            },
        )
    }
}

/// A parsed torrent file: the tracker URL and the typed `info` descriptor.
#[derive(Debug)]
pub struct TorrentFile {
    pub announce: String,
    pub info: TorrentFileInfo,
}

/// Whether a decoded torrent file value has a byte-string `announce` and a
/// dictionary `info` that satisfies the `info` requirements.
pub open spec fn spec_torrent_ok(v: SpecValue) -> bool {
    match v {
        SpecValue::Dictionary(d) => {
            &&& (spec_lookup(d, announce_key()) matches Some(SpecValue::BString(_)))
            &&& (spec_lookup(d, info_key()) matches Some(iv) && spec_info_ok(iv))
        },
        _ => false,
    }
}

impl TorrentFile {
    /// Builds the torrent descriptor from the decoded top-level dictionary.
    /// Every absent or mistyped field is a `MissingFieldError`.
    pub fn new(parsed_file: &BencodedValue) -> (r: Result<TorrentFile, TorrentError>)
        ensures
            r is Ok <==> spec_torrent_ok(parsed_file.dv()),
            match r {
                Ok(t) => {
                    let d = parsed_file.dv()->Dictionary_0;
                    let iv = spec_lookup(d, info_key())->Some_0;
                    let id = iv->Dictionary_0;
                    &&& t.announce@ == lossy_decode(
                        spec_lookup(d, announce_key())->Some_0->BString_0,
                    )
                    &&& t.info.info_hash@ == hex_of(sha1_of(spec_encode(iv)))
                    &&& t.info.info_hash@.len() == 40
                    &&& t.info.name@ == lossy_decode(
                        spec_lookup(id, name_key())->Some_0->BString_0,
                    )
                    &&& t.info.length as int == spec_lookup(id, length_key())->Some_0->Integer_0
                    &&& t.info.piece_length as int == spec_lookup(
                        id,
                        piece_length_key(),
                    )->Some_0->Integer_0
                    &&& t.info.raw_pieces@ == spec_lookup(id, pieces_key())->Some_0->BString_0
                    &&& t.info.piece_hashes@.len() == t.info.raw_pieces@.len() / 20
                    &&& forall|i: int| 0 <= i < t.info.piece_hashes@.len() ==> (
                        #[trigger] t.info.piece_hashes@[i])@ == hex_of(
                        t.info.raw_pieces@.subrange(20 * i, 20 * i + 20),
                    )
                },
                Err(e) => e == TorrentError::MissingFieldError,
            },
    {
        let dictionary = match parsed_file.extract_dict() {
            Some(d) => d,
            None => {
                return Err(TorrentError::MissingFieldError);
            },
        };
        let announce_k = make_announce_key();
        let announce = match dict_get(dictionary, announce_k.as_slice()) {
            Some(v) => match v.extract_bstring() {
                Some(b) => lossy_utf8_string(b),
                None => {
                    return Err(TorrentError::MissingFieldError);
                },
            },
            None => {
                return Err(TorrentError::MissingFieldError);
            },
        };
        let info_k = make_info_key();
        let info_value = match dict_get(dictionary, info_k.as_slice()) {
            Some(v) => v,
            None => {
                return Err(TorrentError::MissingFieldError);
            },
        };
        let info = match TorrentFileInfo::new(info_value) {
            Ok(i) => i,
            Err(e) => {
                return Err(e);
            },
        };
        Ok(TorrentFile { announce, info })
    }
}

/// In a sorted entry sequence whose first key is above `k`, no entry binds
/// `k` at all.
proof fn lemma_lookup_below(d: Seq<(Seq<u8>, SpecValue)>, k: Seq<u8>)
    requires
        entries_sorted(d),
        d.len() == 0 || lex_lt(k, d[0].0),
    ensures
        spec_lookup(d, k) is None,
    decreases d.len(),
{
    if d.len() > 0 {
        if d[0].0 == k {
            lemma_lex_lt_irrefl(k);
        }
        let dd = d.drop_first();
        assert(forall|i: int| 0 <= i < dd.len() ==> dd[i] == d[i + 1]);
        if dd.len() > 0 {
            lemma_lex_lt_trans(k, d[0].0, d[1].0);
        }
        lemma_lookup_below(dd, k);
    }
}

/// Two sorted entry sequences that bind exactly the same keys to the same
/// values are the same sequence.
proof fn lemma_sorted_entries_ext(d1: Seq<(Seq<u8>, SpecValue)>, d2: Seq<(Seq<u8>, SpecValue)>)
    requires
        entries_sorted(d1),
        entries_sorted(d2),
        forall|k: Seq<u8>| #[trigger] spec_lookup(d1, k) == spec_lookup(d2, k),
    ensures
        d1 == d2,
    decreases d1.len(),
{
    if d1.len() == 0 && d2.len() == 0 {
        assert(d1 =~= d2);
    } else if d1.len() == 0 {
        assert(spec_lookup(d2, d2[0].0) == Some(d2[0].1));
        assert(spec_lookup(d1, d2[0].0) is None);
        assert(false);
    } else if d2.len() == 0 {
        assert(spec_lookup(d1, d1[0].0) == Some(d1[0].1));
        assert(spec_lookup(d2, d1[0].0) is None);
        assert(false);
    } else {
        let k1 = d1[0].0;
        let k2 = d2[0].0;
        lemma_lex_lt_connected(k1, k2);
        if lex_lt(k1, k2) {
            lemma_lookup_below(d2, k1);
            assert(spec_lookup(d1, k1) == Some(d1[0].1));
            assert(false);
        }
        if lex_lt(k2, k1) {
            lemma_lookup_below(d1, k2);
            assert(spec_lookup(d2, k2) == Some(d2[0].1));
            assert(false);
        }
        assert(k1 == k2);
        assert(spec_lookup(d1, k1) == Some(d1[0].1));
        assert(spec_lookup(d2, k1) == Some(d2[0].1));
        assert(d1[0].1 == d2[0].1);
        let t1 = d1.drop_first();
        let t2 = d2.drop_first();
        assert(forall|i: int| 0 <= i < t1.len() ==> t1[i] == d1[i + 1]);
        assert(forall|i: int| 0 <= i < t2.len() ==> t2[i] == d2[i + 1]);
        assert(entries_sorted(t1));
        assert(entries_sorted(t2));
        assert forall|k: Seq<u8>| #[trigger] spec_lookup(t1, k) == spec_lookup(t2, k) by {
            if k == k1 {
                if t1.len() > 0 {
                    lemma_lookup_below(t1, k);
                }
                if t2.len() > 0 {
                    lemma_lookup_below(t2, k);
                }
                if t1.len() == 0 {
                    assert(spec_lookup(t1, k) is None);
                }
                if t2.len() == 0 {
                    assert(spec_lookup(t2, k) is None);
                }
            } else {
                assert(spec_lookup(d1, k) == spec_lookup(t1, k));
                assert(spec_lookup(d2, k) == spec_lookup(t2, k));
            }
        }
        lemma_sorted_entries_ext(t1, t2);
        assert(d1 =~= d2) by {
            assert(forall|i: int| 1 <= i < d1.len() ==> d1[i] == t1[i - 1] && d2[i] == t2[i - 1]);
        }
    }
}

/// Info-hash determinism: two well-formed (sorted) dictionaries that bind
/// the same keys to the same values — whatever order their source files
/// used — re-encode to the same bytes and so hash to the same hex digest.
pub proof fn lemma_info_hash_deterministic(
    d1: Seq<(Seq<u8>, SpecValue)>,
    d2: Seq<(Seq<u8>, SpecValue)>,
)
    requires
        entries_sorted(d1),
        entries_sorted(d2),
        forall|k: Seq<u8>| #[trigger] spec_lookup(d1, k) == spec_lookup(d2, k),
    ensures
        spec_encode(SpecValue::Dictionary(d1)) == spec_encode(SpecValue::Dictionary(d2)),
        hex_of(sha1_of(spec_encode(SpecValue::Dictionary(d1)))) == hex_of(
            sha1_of(spec_encode(SpecValue::Dictionary(d2))),
        ),
{
    lemma_sorted_entries_ext(d1, d2);
}

} // verus!
