use bittorrent::errors::TorrentError;
use bittorrent::tracker::build_tracker_url;
use bittorrent::tracker::get_random_peer_id;
use bittorrent::tracker::parse_tracker_response;
use bittorrent::tracker::url_encode_hash;

#[test]
fn url_encodes_hash_bytes_percent_style() {
    assert_eq!(url_encode_hash("0a1f"), "%0A%1F");
    assert_eq!(url_encode_hash("ff00AB"), "%FF%00%AB");
    assert_eq!(url_encode_hash(""), "");
}

#[test]
fn builds_full_announce_url() {
    let url = build_tracker_url(
        "http://tracker.test/announce",
        "0a1f",
        "-TR2920-123456789012",
        6881,
        1024,
    );
    assert_eq!(
        url,
        "http://tracker.test/announce?info_hash=%0A%1F&peer_id=-TR2920-123456789012&port=6881&uploaded=0&downloaded=0&left=1024&compact=1"
    );
}

#[test]
fn random_peer_id_has_tag_and_twelve_digits() {
    let id = get_random_peer_id();
    assert_eq!(id.len(), 20);
    assert!(id.starts_with("-TR2920-"));
    for c in id[8..].chars() {
        assert!(c.is_ascii_digit());
    }
}

#[test]
fn parses_two_compact_peers() {
    let mut body: Vec<u8> = Vec::new();
    body.extend(b"d5:peers12:");
    body.extend([1u8, 2, 3, 4, 0, 80, 5, 6, 7, 8, 1, 187]);
    body.push(b'e');
    let peers = parse_tracker_response(&body).unwrap();
    assert_eq!(peers.len(), 2);
    assert_eq!(peers[0], "1.2.3.4:80");
    assert_eq!(peers[1], "5.6.7.8:443");
}

#[test]
fn trailing_partial_peer_group_is_dropped() {
    let mut body: Vec<u8> = Vec::new();
    body.extend(b"d5:peers13:");
    body.extend([1u8, 2, 3, 4, 0, 80, 5, 6, 7, 8, 1, 187, 9]);
    body.push(b'e');
    let peers = parse_tracker_response(&body).unwrap();
    assert_eq!(peers.len(), 2);
    assert_eq!(peers[0], "1.2.3.4:80");
    assert_eq!(peers[1], "5.6.7.8:443");
}

#[test]
fn short_peers_field_yields_no_endpoints() {
    let mut body: Vec<u8> = Vec::new();
    body.extend(b"d5:peers5:");
    body.extend([1u8, 2, 3, 4, 5]);
    body.push(b'e');
    let peers = parse_tracker_response(&body).unwrap();
    assert_eq!(peers.len(), 0);
}

#[test]
fn bad_tracker_responses_are_rejected() {
    assert_eq!(
        parse_tracker_response(b"i5e").unwrap_err(),
        TorrentError::TrackerProtocolError
    );
    assert_eq!(
        parse_tracker_response(b"d5:partsi1ee").unwrap_err(),
        TorrentError::TrackerProtocolError
    );
    assert_eq!(
        parse_tracker_response(b"d5:peersi1ee").unwrap_err(),
        TorrentError::TrackerProtocolError
    );
    assert_eq!(
        parse_tracker_response(b"not bencode").unwrap_err(),
        TorrentError::TrackerProtocolError
    );
}
