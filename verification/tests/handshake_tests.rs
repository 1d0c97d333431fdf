use bittorrent::errors::TorrentError;
use bittorrent::peer_comm::build_handshake;
use bittorrent::peer_comm::validate_handshake_response;

fn sample_hash() -> Vec<u8> {
    (0u8..20u8).collect()
}

fn sample_peer_id() -> Vec<u8> {
    b"-TR2920-123456789012".to_vec()
}

#[test]
fn handshake_message_layout_is_68_bytes() {
    let m = build_handshake(&sample_hash(), &sample_peer_id()).unwrap();
    assert_eq!(m.len(), 68);
    assert_eq!(m[0], 19);
    assert_eq!(&m[1..20], b"BitTorrent protocol");
    assert_eq!(&m[20..28], &[0u8; 8]);
    assert_eq!(&m[28..48], sample_hash().as_slice());
    assert_eq!(&m[48..68], sample_peer_id().as_slice());
}

#[test]
fn wrong_argument_lengths_are_caller_bugs() {
    assert_eq!(
        build_handshake(&vec![0u8; 19], &sample_peer_id()).unwrap_err(),
        TorrentError::InvalidArgumentError
    );
    assert_eq!(
        build_handshake(&sample_hash(), &vec![0u8; 21]).unwrap_err(),
        TorrentError::InvalidArgumentError
    );
}

#[test]
fn matching_echo_returns_remote_peer_id() {
    let remote_id = b"-XX1234-abcdefghijkl".to_vec();
    let response = build_handshake(&sample_hash(), &remote_id).unwrap();
    let got = validate_handshake_response(&response, &sample_hash()).unwrap();
    assert_eq!(got, remote_id);
}

#[test]
fn differing_info_hash_fails_validation() {
    let response = build_handshake(&sample_hash(), &sample_peer_id()).unwrap();
    let mut other_hash = sample_hash();
    other_hash[7] ^= 1;
    assert_eq!(
        validate_handshake_response(&response, &other_hash).unwrap_err(),
        TorrentError::HandshakeProtocolError
    );
}

#[test]
fn wrong_protocol_name_fails_validation() {
    let mut response = build_handshake(&sample_hash(), &sample_peer_id()).unwrap();
    response[5] = b'x';
    assert_eq!(
        validate_handshake_response(&response, &sample_hash()).unwrap_err(),
        TorrentError::HandshakeProtocolError
    );
    let mut response2 = build_handshake(&sample_hash(), &sample_peer_id()).unwrap();
    response2[0] = 18;
    assert_eq!(
        validate_handshake_response(&response2, &sample_hash()).unwrap_err(),
        TorrentError::HandshakeProtocolError
    );
}
