//! The tracker query logic: the announce GET request URL with its
//! percent-encoded info-hash, the random peer identifier, and the decoding
//! of the compact peer list that the tracker returns.

use vstd::prelude::*;
use vstd::string::StringSliceAdditionalSpecFns;
use crate::bencode_value::SpecValue;
use crate::bencode_value::dict_get;
use crate::bencode_value::spec_lookup;
use crate::bencode_decoder::decode_bencoded_value;
use crate::bencode_decoder::spec_decode;
use crate::byteops::spec_dec_nat;
use crate::byteops::lemma_spec_dec_nat_props;
use crate::byteops::u64_to_decimal;
use crate::errors::TorrentError;
use rand::Rng;

verus! {

/// The characters that a sequence of ASCII bytes spells.
pub open spec fn ascii_chars(b: Seq<u8>) -> Seq<char> {
    Seq::new(b.len(), |i: int| b[i] as char)
}

/// Relies on String::from_utf8: bytes below 128 are valid UTF-8 and decode
/// to one character per byte.
#[verifier::external_body]
fn ascii_to_string(b: &Vec<u8>) -> (r: String)
    requires
        forall|i: int| 0 <= i < b@.len() ==> b@[i] < 128,
    ensures
        r@ == ascii_chars(b@),
{
    String::from_utf8(b.clone()).unwrap()
}

/// Relies on rand::thread_rng and rand::Rng::gen_range: some value drawn
/// from the half-open range below ten.
#[verifier::external_body]
fn random_decimal_digit() -> (r: u8)
    ensures
        r < 10,
{
    rand::thread_rng().gen_range(0..10u8)
}

/// Whether `b` is an ASCII hex digit byte (either case).
pub open spec fn is_hex_digit_byte(b: u8) -> bool {
    (48 <= b <= 57) || (97 <= b <= 102) || (65 <= b <= 70)
}

/// The value of an ASCII hex digit byte.
pub open spec fn hex_byte_val(b: u8) -> int {
    if 48 <= b <= 57 {
        b - 48
    } else if 97 <= b <= 102 {
        b - 87
    } else {
        b - 55
    }
}

/// The uppercase ASCII hex digit byte for a value below sixteen.
pub open spec fn upper_hex_byte(n: int) -> u8 {
    if n < 10 {
        (48 + n) as u8
    } else {
        (55 + n) as u8
    }
}

/// The percent-encoding of a hex string read two digits at a time: each
/// byte becomes `%` followed by its two uppercase hex digits.
pub open spec fn percent_bytes(h: Seq<u8>) -> Seq<u8>
    decreases h.len(),
{
    if h.len() < 2 {
        Seq::empty()
    } else {
        let v = hex_byte_val(h[0]) * 16 + hex_byte_val(h[1]);
        seq![37u8, upper_hex_byte(v / 16), upper_hex_byte(v % 16)] + percent_bytes(h.skip(2))
    }
}

/// Re-encodes a hex digest for a URL query: every byte it names, written as
/// `%XX` with uppercase digits. The input must be hex digits, two per byte.
pub fn url_encode_hash(hash: &str) -> (r: String)
    requires
        hash.spec_bytes().len() % 2 == 0,
        forall|i: int| 0 <= i < hash.spec_bytes().len() ==> is_hex_digit_byte(
            #[trigger] hash.spec_bytes()[i],
        ),
    ensures
        r@ == ascii_chars(percent_bytes(hash.spec_bytes())),
{
    let h = hash.as_bytes();
    let ghost hb = hash.spec_bytes();
    let hlen = h.len();
    let mut out: Vec<u8> = Vec::new();
    let mut i: usize = 0;
    proof {
        assert(hb.skip(0) =~= hb);
        assert(Seq::<u8>::empty() + percent_bytes(hb) =~= percent_bytes(hb));
    }
    while hlen - i >= 2
        invariant
            h@ == hb,
            hlen == hb.len(),
            hb.len() % 2 == 0,
            hb.len() <= usize::MAX,
            forall|x: int| 0 <= x < hb.len() ==> is_hex_digit_byte(#[trigger] hb[x]),
            0 <= i <= hb.len(),
            i % 2 == 0,
            forall|x: int| 0 <= x < out@.len() ==> out@[x] < 128,
            percent_bytes(hb) == out@ + percent_bytes(hb.skip(i as int)),
        decreases hb.len() - i,
    {
        let ghost old_out = out@;
        let c0 = h[i];
        let c1 = h[i + 1];
        let v0: u8 = if c0 >= 97 {
            c0 - 87
        } else if c0 >= 65 {
            c0 - 55
        } else {
            c0 - 48
        };
        let v1: u8 = if c1 >= 97 {
            c1 - 87
        } else if c1 >= 65 {
            c1 - 55
        } else {
            c1 - 48
        };
        let b: u8 = v0 * 16 + v1;
        let d0: u8 = b / 16;
        let d1: u8 = b % 16;
        out.push(37);
        out.push(if d0 < 10 {
            48 + d0
        } else {
            55 + d0
        });
        out.push(if d1 < 10 {
            48 + d1
        } else {
            55 + d1
        });
        proof {
            let rem = hb.skip(i as int);
            assert(rem[0] == hb[i as int] && rem[1] == hb[i + 1]);
            assert(rem.skip(2) =~= hb.skip(i + 2));
            assert(v0 as int == hex_byte_val(hb[i as int]));
            assert(v1 as int == hex_byte_val(hb[i + 1]));
            assert(b as int == hex_byte_val(rem[0]) * 16 + hex_byte_val(rem[1]));
            assert(percent_bytes(rem) == seq![
                37u8,
                upper_hex_byte(b as int / 16),
                upper_hex_byte(b as int % 16),
            ] + percent_bytes(hb.skip(i + 2)));
            assert(out@ =~= old_out + seq![
                37u8,
                upper_hex_byte(b as int / 16),
                upper_hex_byte(b as int % 16),
            ]);
            assert(out@ + percent_bytes(hb.skip(i + 2)) =~= old_out + percent_bytes(rem));
        }
        i += 2;
    }
    proof {
        assert(i == hb.len());
        assert(percent_bytes(hb.skip(hb.len() as int)) =~= Seq::<u8>::empty());
        assert(out@ + Seq::<u8>::empty() =~= out@);
    }
    ascii_to_string(&out)
}

/// The fixed eight-byte client tag that opens every peer identifier.
pub open spec fn peer_id_prefix() -> Seq<u8> {
    seq![45u8, 84u8, 82u8, 50u8, 57u8, 50u8, 48u8, 45u8]
}

/// Draws a fresh 20-character peer identifier: the fixed client tag
/// followed by twelve random decimal digits.
pub fn get_random_peer_id() -> (r: String)
    ensures
        r@.len() == 20,
        r@.subrange(0, 8) == ascii_chars(peer_id_prefix()),
        forall|i: int| 8 <= i < 20 ==> 48 <= (#[trigger] r@[i]) as u32 <= 57,
{
    let mut out: Vec<u8> = Vec::new();
    out.push(45);
    out.push(84);
    out.push(82);
    out.push(50);
    out.push(57);
    out.push(50);
    out.push(48);
    out.push(45);
    proof {
        assert(out@ =~= peer_id_prefix());
    }
    let mut i: usize = 0;
    while i < 12
        invariant
            0 <= i <= 12,
            out@.len() == 8 + i,
            out@.subrange(0, 8) == peer_id_prefix(),
            forall|x: int| 0 <= x < out@.len() ==> out@[x] < 128,
            forall|x: int| 8 <= x < out@.len() ==> 48 <= #[trigger] out@[x] <= 57,
        decreases 12 - i,
    {
        let ghost old_out = out@;
        let d = random_decimal_digit();
        out.push(48 + d);
        proof {
            assert(out@.subrange(0, 8) =~= old_out.subrange(0, 8));
        }
        i += 1;
    }
    let r = ascii_to_string(&out);
    proof {
        assert(r@.subrange(0, 8) =~= ascii_chars(peer_id_prefix()));
    }
    r
}

/// The decimal characters of a number.
pub open spec fn dec_chars(n: nat) -> Seq<char> {
    ascii_chars(spec_dec_nat(n))
}

/// The textual `a.b.c.d:port` endpoint that one six-byte group of a compact
/// peer list names: four dotted decimal octets, then the big-endian port.
pub open spec fn endpoint_chars(b: Seq<u8>) -> Seq<char> {
    dec_chars(b[0] as nat) + seq!['.'] + dec_chars(b[1] as nat) + seq!['.'] + dec_chars(
        b[2] as nat,
    ) + seq!['.'] + dec_chars(b[3] as nat) + seq![':'] + dec_chars((b[4] as nat) * 256 + b[5] as nat)
}

/// Renders one six-byte group as its `ip:port` text.
fn endpoint_string(g: &Vec<u8>) -> (r: String)
    requires
        g@.len() == 6,
    ensures
        r@ == endpoint_chars(g@),
{
    let mut out: Vec<u8> = Vec::new();
    let mut o0 = u64_to_decimal(g[0] as u64);
    proof {
        lemma_spec_dec_nat_props(g@[0] as nat);
    }
    out.append(&mut o0);
    out.push(46);
    let mut o1 = u64_to_decimal(g[1] as u64);
    proof {
        lemma_spec_dec_nat_props(g@[1] as nat);
    }
    out.append(&mut o1);
    out.push(46);
    let mut o2 = u64_to_decimal(g[2] as u64);
    proof {
        lemma_spec_dec_nat_props(g@[2] as nat);
    }
    out.append(&mut o2);
    out.push(46);
    let mut o3 = u64_to_decimal(g[3] as u64);
    proof {
        lemma_spec_dec_nat_props(g@[3] as nat);
    }
    out.append(&mut o3);
    out.push(58);
    let port: u64 = (g[4] as u64) * 256 + (g[5] as u64);
    let mut op = u64_to_decimal(port);
    proof {
        lemma_spec_dec_nat_props(port as nat);
    }
    out.append(&mut op);
    let r = ascii_to_string(&out);
    proof {
        assert(ascii_chars(out@) =~= endpoint_chars(g@)) by {
            assert(out@ =~= spec_dec_nat(g@[0] as nat) + seq![46u8] + spec_dec_nat(g@[1] as nat)
                + seq![46u8] + spec_dec_nat(g@[2] as nat) + seq![46u8] + spec_dec_nat(
                g@[3] as nat,
            ) + seq![58u8] + spec_dec_nat((g@[4] as nat) * 256 + g@[5] as nat));
        }
    }
    r
}

/// Builds the announce GET request URL: the tracker URL with the raw
/// info-hash bytes percent-encoded one by one, the peer identifier, the
/// listening port, zero counters, the bytes left, and the compact flag.
pub fn build_tracker_url(
    announce_url: &str,
    info_hash: &str,
    peer_id: &str,
    port: u16,
    length: u64,
) -> (r: String)
    requires
        info_hash.spec_bytes().len() % 2 == 0,
        forall|i: int| 0 <= i < info_hash.spec_bytes().len() ==> is_hex_digit_byte(
            #[trigger] info_hash.spec_bytes()[i],
        ),
    ensures
        r@ == announce_url@ + "?info_hash="@ + ascii_chars(percent_bytes(info_hash.spec_bytes()))
            + "&peer_id="@ + peer_id@ + "&port="@ + dec_chars(port as nat)
            + "&uploaded=0&downloaded=0&left="@ + dec_chars(length as nat) + "&compact=1"@,
{
    let mut url = String::new();
    url.append(announce_url);
    url.append("?info_hash=");
    let enc = url_encode_hash(info_hash);
    url.append(enc.as_str());
    url.append("&peer_id=");
    url.append(peer_id);
    url.append("&port=");
    let pd = u64_to_decimal(port as u64);
    proof {
        lemma_spec_dec_nat_props(port as nat);
    }
    let pds = ascii_to_string(&pd);
    url.append(pds.as_str());
    url.append("&uploaded=0&downloaded=0&left=");
    let ld = u64_to_decimal(length);
    proof {
        lemma_spec_dec_nat_props(length as nat);
    }
    let lds = ascii_to_string(&ld);
    url.append(lds.as_str());
    url.append("&compact=1");
    proof {
        assert(url@ =~= announce_url@ + "?info_hash="@ + ascii_chars(
            percent_bytes(info_hash.spec_bytes()),
        ) + "&peer_id="@ + peer_id@ + "&port="@ + dec_chars(port as nat)
            + "&uploaded=0&downloaded=0&left="@ + dec_chars(length as nat) + "&compact=1"@);
    }
    url
}

/// What the compact `peers` byte string of a tracker response is, if the
/// response decodes to a dictionary with a byte-string `peers` field.
pub open spec fn spec_tracker_peers(v: SpecValue) -> Option<Seq<u8>> {
    match v {
        SpecValue::Dictionary(d) => match spec_lookup(d, peers_key()) {
            Some(SpecValue::BString(ps)) => Some(ps),
            _ => None,
        },
        _ => None,
    }
}

/// The raw bytes of the key `peers`.
pub open spec fn peers_key() -> Seq<u8> {
    seq![112u8, 101u8, 101u8, 114u8, 115u8]
}

fn make_peers_key() -> (r: Vec<u8>)
    ensures
        r@ == peers_key(),
{
    let mut v: Vec<u8> = Vec::new();
    v.push(112);
    v.push(101);
    v.push(101);
    v.push(114);
    v.push(115);
    proof {
        assert(v@ =~= peers_key());
    }
    v
}

/// Decodes a tracker response body: it must be a bencoded dictionary with a
/// byte-string `peers` field, read six bytes per peer, strictly in order;
/// trailing bytes short of a full group are dropped. Anything else is a
/// `TrackerProtocolError`.
pub fn parse_tracker_response(body: &[u8]) -> (r: Result<Vec<String>, TorrentError>)
    ensures
        match r {
            Ok(lst) => (match spec_decode(body@) {
                Ok((v, n)) => spec_tracker_peers(v) matches Some(ps) && lst@.len() == ps.len()
                    / 6 && forall|i: int|
                    0 <= i < lst@.len() ==> (#[trigger] lst@[i])@ == endpoint_chars(
                        ps.subrange(6 * i, 6 * i + 6),
                    ),
                Err(_) => false,
            }),
            Err(e) => e == TorrentError::TrackerProtocolError && (match spec_decode(body@) {
                Ok((v, n)) => spec_tracker_peers(v) is None,
                Err(_) => true,
            }),
        },
{
    let decoded_body = match decode_bencoded_value(body) {
        Ok(v) => v,
        Err(_) => {
            return Err(TorrentError::TrackerProtocolError);
        },
    };
    let dictionary = match decoded_body.extract_dict() {
        Some(d) => d,
        None => {
            return Err(TorrentError::TrackerProtocolError);
        },
    };
    let peers_k = make_peers_key();
    let peers = match dict_get(dictionary, peers_k.as_slice()) {
        Some(v) => match v.extract_bstring() {
            Some(b) => b,
            None => {
                return Err(TorrentError::TrackerProtocolError);
            },
        },
        None => {
            return Err(TorrentError::TrackerProtocolError);
        },
    };
    let ghost ps = peers@;
    let plen = peers.len();
    let mut peer_list: Vec<String> = Vec::new();
    let mut index: usize = 0;
    while plen - index >= 6
        invariant
            ps == peers@,
            plen == ps.len(),
            0 <= index <= ps.len(),
            ps.len() <= usize::MAX,
            index % 6 == 0,
            peer_list@.len() * 6 == index,
            forall|i: int| 0 <= i < peer_list@.len() ==> (#[trigger] peer_list@[i])@
                == endpoint_chars(ps.subrange(6 * i, 6 * i + 6)),
        decreases ps.len() - index,
    {
        let mut g: Vec<u8> = Vec::new();
        let mut j = index;
        while j < index + 6
            invariant
                index <= j <= index + 6,
                index + 6 <= ps.len(),
                ps == peers@,
                ps.len() <= usize::MAX,
                g@.len() == j - index,
                forall|x: int| 0 <= x < g@.len() ==> g@[x] == ps[index + x],
            decreases index + 6 - j,
        {
            g.push(peers[j]);
            j += 1;
        }
        proof {
            assert(g@ =~= ps.subrange(index as int, index as int + 6));
        }
        let peer = endpoint_string(&g);
        peer_list.push(peer);
        index += 6;
        proof {
            assert(forall|i: int|
                0 <= i < peer_list@.len() - 1 ==> peer_list@[i] == peer_list@.drop_last()[i]);
        }
    }
    proof {
        assert(peer_list@.len() == ps.len() / 6) by (nonlinear_arith)
            requires
                peer_list@.len() * 6 == index,
                index % 6 == 0,
                0 <= index,
                index <= ps.len(),
                ps.len() - index < 6,
        ;
    }
    Ok(peer_list)
}

} // verus!
