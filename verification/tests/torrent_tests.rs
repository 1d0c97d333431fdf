use bittorrent::bencode_decoder::decode_bencoded_value;
use bittorrent::errors::TorrentError;
use bittorrent::interchange::InterchangeValue;
use bittorrent::torrent::TorrentFile;
use bittorrent::torrent::TorrentFileInfo;
use sha1::Digest;

fn info_dict_bytes(sorted: bool) -> Vec<u8> {
    // An info dictionary with a 40-byte pieces field (two pieces), written
    // either with sorted keys or in a scrambled key order.
    let pieces: Vec<u8> = (0u8..40u8).collect();
    let mut out = Vec::new();
    if sorted {
        out.extend(b"d6:lengthi1024e4:name4:file12:piece lengthi512e6:pieces40:");
        out.extend(&pieces);
        out.push(b'e');
    } else {
        out.extend(b"d6:pieces40:");
        out.extend(&pieces);
        out.extend(b"4:name4:file6:lengthi1024e12:piece lengthi512ee");
    }
    out
}

#[test]
fn extracts_info_fields() {
    let v = decode_bencoded_value(&info_dict_bytes(true)).unwrap();
    let info = TorrentFileInfo::new(&v).unwrap();
    assert_eq!(info.name, "file");
    assert_eq!(info.length, 1024);
    assert_eq!(info.piece_length, 512);
    assert_eq!(info.raw_pieces.len(), 40);
    assert_eq!(info.piece_hashes.len(), 2);
}

#[test]
fn piece_hashes_are_hex_of_each_20_byte_chunk() {
    let pieces: Vec<u8> = (0u8..40u8).collect();
    let hashes = TorrentFileInfo::get_piece_hashes(&pieces);
    assert_eq!(hashes.len(), 2);
    assert_eq!(hashes[0].len(), 40);
    assert_eq!(hashes[1].len(), 40);
    assert_eq!(hashes[0], "000102030405060708090a0b0c0d0e0f10111213");
    assert_eq!(hashes[1], "1415161718191a1b1c1d1e1f2021222324252627");
}

#[test]
fn pieces_not_multiple_of_twenty_is_rejected() {
    let mut out: Vec<u8> = Vec::new();
    out.extend(b"d6:lengthi1e4:name1:x12:piece lengthi1e6:pieces30:");
    out.extend(vec![0u8; 30]);
    out.push(b'e');
    let v = decode_bencoded_value(&out).unwrap();
    assert_eq!(
        TorrentFileInfo::new(&v).unwrap_err(),
        TorrentError::MissingFieldError
    );
}

#[test]
fn missing_field_is_rejected() {
    let v = decode_bencoded_value(b"d6:lengthi1e4:name1:xe").unwrap();
    assert_eq!(
        TorrentFileInfo::new(&v).unwrap_err(),
        TorrentError::MissingFieldError
    );
    let v = decode_bencoded_value(b"i1e").unwrap();
    assert_eq!(
        TorrentFileInfo::new(&v).unwrap_err(),
        TorrentError::MissingFieldError
    );
}

#[test]
fn info_hash_is_independent_of_source_key_order() {
    let v1 = decode_bencoded_value(&info_dict_bytes(true)).unwrap();
    let v2 = decode_bencoded_value(&info_dict_bytes(false)).unwrap();
    let i1 = TorrentFileInfo::new(&v1).unwrap();
    let i2 = TorrentFileInfo::new(&v2).unwrap();
    assert_eq!(i1.info_hash.len(), 40);
    assert_eq!(i1.info_hash, i2.info_hash);
}

#[test]
fn info_hash_is_sha1_of_canonical_encoding() {
    let v = decode_bencoded_value(&info_dict_bytes(false)).unwrap();
    let info = TorrentFileInfo::new(&v).unwrap();
    // The canonical re-encoding is the sorted form, whatever the source
    // order was.
    let canonical = info_dict_bytes(true);
    assert_eq!(v.encode(), canonical);
    let mut hasher = sha1::Sha1::new();
    hasher.update(&canonical);
    let digest = hasher.finalize();
    assert_eq!(info.info_hash, hex::encode(digest));
}

#[test]
fn builds_torrent_file_from_top_level_dictionary() {
    let mut out: Vec<u8> = Vec::new();
    out.extend(b"d8:announce21:http://tracker.test/a4:info");
    out.extend(info_dict_bytes(true));
    out.push(b'e');
    let v = decode_bencoded_value(&out).unwrap();
    let t = TorrentFile::new(&v).unwrap();
    assert_eq!(t.announce, "http://tracker.test/a");
    assert_eq!(t.info.length, 1024);
    assert_eq!(t.info.piece_hashes.len(), 2);
}

#[test]
fn torrent_without_announce_is_rejected() {
    let mut out: Vec<u8> = Vec::new();
    out.extend(b"d4:info");
    out.extend(info_dict_bytes(true));
    out.push(b'e');
    let v = decode_bencoded_value(&out).unwrap();
    assert_eq!(
        TorrentFile::new(&v).unwrap_err(),
        TorrentError::MissingFieldError
    );
}

#[test]
fn interchange_tree_keeps_bytes_raw_and_keys_text() {
    let v = decode_bencoded_value(b"d3:cow3:moo3:numi5ee").unwrap();
    match v.to_json() {
        InterchangeValue::Object(entries) => {
            assert_eq!(entries.len(), 2);
            assert_eq!(entries[0].0, "cow");
            match &entries[0].1 {
                InterchangeValue::Bytes(b) => assert_eq!(b, &b"moo".to_vec()),
                _ => panic!("expected raw bytes"),
            }
            assert_eq!(entries[1].0, "num");
            match &entries[1].1 {
                InterchangeValue::Integer(n) => assert_eq!(*n, 5),
                _ => panic!("expected integer"),
            }
        },
        _ => panic!("expected an object"),
    }
}

#[test]
fn decode_bencode_to_json_reports_decode_errors() {
    match bittorrent::interchange::decode_bencode_to_json(b"l4:spam4:eggse").unwrap() {
        InterchangeValue::Array(items) => assert_eq!(items.len(), 2),
        _ => panic!("expected an array"),
    }
    assert_eq!(
        bittorrent::interchange::decode_bencode_to_json(b"zzz").unwrap_err(),
        TorrentError::MalformedInputError
    );
}
