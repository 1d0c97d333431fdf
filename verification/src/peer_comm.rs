//! The peer wire-protocol handshake: building the fixed 68-byte handshake
//! message and validating the 68-byte response. The network exchange itself
//! belongs to the caller; only the message layout and its validation rules
//! live here.

use vstd::prelude::*;
use crate::bencode_value::append_bytes;
use crate::errors::TorrentError;

verus! {

/// The peer wire-protocol message kinds that follow a successful handshake.
/// They are declared for callers that carry the exchange further; nothing
/// here sends or receives them.
#[derive(Clone, Copy, Debug, PartialEq, Eq, Structural)]
pub enum BitTorrentMessage {
    KeepAlive,
    Choke,
    Unchoke,
    Interested,
    NotInterested,
    Have,
    Bitfield,
    Request,
    Piece,
    Cancel,
    Port,
}

/// The 19 bytes of the literal protocol name `BitTorrent protocol`.
pub open spec fn protocol_name_bytes() -> Seq<u8> {
    seq![
        66u8, 105u8, 116u8, 84u8, 111u8, 114u8, 114u8, 101u8, 110u8, 116u8, 32u8, 112u8, 114u8,
        111u8, 116u8, 111u8, 99u8, 111u8, 108u8,
    ]
}

/// Eight zero reserved bytes.
pub open spec fn reserved_bytes() -> Seq<u8> {
    seq![0u8, 0u8, 0u8, 0u8, 0u8, 0u8, 0u8, 0u8]
}

/// The 68-byte handshake message for a given info-hash and peer identifier:
/// the protocol-name length 19, the protocol name, eight zero reserved
/// bytes, the 20 info-hash bytes, the 20 peer-identifier bytes.
pub open spec fn spec_handshake(info_hash: Seq<u8>, peer_id: Seq<u8>) -> Seq<u8> {
    seq![19u8] + protocol_name_bytes() + reserved_bytes() + info_hash + peer_id
}

/// Whether a 68-byte handshake response is acceptable for `info_hash`: the
/// first byte is 19, the next 19 bytes spell the protocol name, and the 20
/// bytes at offset 28 equal the info-hash that was sent. Reserved bytes are
/// ignored.
pub open spec fn spec_response_ok(response: Seq<u8>, info_hash: Seq<u8>) -> bool {
    &&& response[0] == 19
    &&& response.subrange(1, 20) == protocol_name_bytes()
    &&& response.subrange(28, 48) == info_hash
}

fn make_protocol_name() -> (r: Vec<u8>)
    ensures
        r@ == protocol_name_bytes(),
{
    let mut v: Vec<u8> = Vec::new();
    v.push(66);
    v.push(105);
    v.push(116);
    v.push(84);
    v.push(111);
    v.push(114);
    v.push(114);
    v.push(101);
    v.push(110);
    v.push(116);
    v.push(32);
    v.push(112);
    v.push(114);
    v.push(111);
    v.push(116);
    v.push(111);
    v.push(99);
    v.push(111);
    v.push(108);
    proof {
        assert(v@ =~= protocol_name_bytes());
    }
    v
}

/// Builds the 68-byte handshake message to send. An info-hash or peer
/// identifier that is not exactly 20 bytes is a caller bug and an
/// `InvalidArgumentError`.
pub fn build_handshake(info_hash: &Vec<u8>, peer_id: &Vec<u8>) -> (r: Result<
    Vec<u8>,
    TorrentError,
>)
    ensures
        r is Ok <==> (info_hash@.len() == 20 && peer_id@.len() == 20),
        match r {
            Ok(m) => m@ == spec_handshake(info_hash@, peer_id@) && m@.len() == 68,
            Err(e) => e == TorrentError::InvalidArgumentError,
        },
{
    if info_hash.len() != 20 {
        return Err(TorrentError::InvalidArgumentError);
    }
    if peer_id.len() != 20 {
        return Err(TorrentError::InvalidArgumentError);
    }
    let mut handshake: Vec<u8> = Vec::new();
    handshake.push(19);
    let mut name = make_protocol_name();
    handshake.append(&mut name);
    let mut i: usize = 0;
    while i < 8
        invariant
            0 <= i <= 8,
            handshake@ == seq![19u8] + protocol_name_bytes() + reserved_bytes().take(i as int),
        decreases 8 - i,
    {
        handshake.push(0);
        proof {
            assert(reserved_bytes().take(i + 1) =~= reserved_bytes().take(i as int).push(0u8));
        }
        i += 1;
    }
    proof {
        assert(reserved_bytes().take(8) =~= reserved_bytes());
        assert(handshake@ =~= (seq![19u8] + protocol_name_bytes()) + reserved_bytes());
    }
    append_bytes(&mut handshake, info_hash.as_slice());
    append_bytes(&mut handshake, peer_id.as_slice());
    proof {
        assert(handshake@ =~= spec_handshake(info_hash@, peer_id@));
    }
    Ok(handshake)
}

/// Validates a complete 68-byte handshake response against the info-hash
/// that was sent. On success, returns the remote peer's 20-byte identifier
/// (bytes 48 to 67); any mismatch is a `HandshakeProtocolError`.
pub fn validate_handshake_response(response: &[u8], info_hash: &Vec<u8>) -> (r: Result<
    Vec<u8>,
    TorrentError,
>)
    requires
        response@.len() == 68,
        info_hash@.len() == 20,
    ensures
        r is Ok <==> spec_response_ok(response@, info_hash@),
        match r {
            Ok(pid) => pid@ == response@.subrange(48, 68),
            Err(e) => e == TorrentError::HandshakeProtocolError,
        },
{
    if response[0] != 19 {
        return Err(TorrentError::HandshakeProtocolError);
    }
    let name = make_protocol_name();
    let mut i: usize = 1;
    while i < 20
        invariant
            1 <= i <= 20,
            response@.len() == 68,
            name@ == protocol_name_bytes(),
            forall|x: int| 1 <= x < i ==> response@[x] == protocol_name_bytes()[x - 1],
        decreases 20 - i,
    {
        if response[i] != name[i - 1] {
            proof {
                assert(response@.subrange(1, 20)[i - 1] != protocol_name_bytes()[i - 1]);
            }
            return Err(TorrentError::HandshakeProtocolError);
        }
        i += 1;
    }
    proof {
        assert(response@.subrange(1, 20) =~= protocol_name_bytes());
    }
    let mut j: usize = 28;
    while j < 48
        invariant
            28 <= j <= 48,
            response@.len() == 68,
            info_hash@.len() == 20,
            forall|x: int| 28 <= x < j ==> response@[x] == info_hash@[x - 28],
        decreases 48 - j,
    {
        if response[j] != info_hash[j - 28] {
            proof {
                assert(response@.subrange(28, 48)[j - 28] != info_hash@[j - 28]);
            }
            return Err(TorrentError::HandshakeProtocolError);
        }
        j += 1;
    }
    proof {
        assert(response@.subrange(28, 48) =~= info_hash@);
    }
    let mut pid: Vec<u8> = Vec::new();
    let mut p: usize = 48;
    while p < 68
        invariant
            48 <= p <= 68,
            response@.len() == 68,
            pid@.len() == p - 48,
            forall|x: int| 0 <= x < pid@.len() ==> pid@[x] == response@[48 + x],
        decreases 68 - p,
    {
        pid.push(response[p]);
        p += 1;
    }
    proof {
        assert(pid@ =~= response@.subrange(48, 68));
    }
    Ok(pid)
}

} // verus!
