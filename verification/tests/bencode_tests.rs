use bittorrent::bencode_decoder::decode_bencoded_integer;
use bittorrent::bencode_decoder::decode_bencoded_value;
use bittorrent::bencode_decoder::decode_value_at;
use bittorrent::bencode_value::BencodedValue;
use bittorrent::errors::TorrentError;

fn bs(b: &[u8]) -> BencodedValue {
    BencodedValue::BString(b.to_vec())
}

#[test]
fn decodes_byte_string() {
    let v = decode_bencoded_value(b"5:hello").unwrap();
    assert!(v.equals(&bs(b"hello")));
}

#[test]
fn decodes_negative_integer() {
    let v = decode_bencoded_value(b"i-42e").unwrap();
    assert!(v.equals(&BencodedValue::Integer(-42)));
}

#[test]
fn decodes_list() {
    let v = decode_bencoded_value(b"l4:spam4:eggse").unwrap();
    let expected = BencodedValue::List(vec![bs(b"spam"), bs(b"eggs")]);
    assert!(v.equals(&expected));
}

#[test]
fn decodes_dictionary_and_reencodes_identically() {
    let input: &[u8] = b"d3:cow3:moo4:spam4:eggse";
    let v = decode_bencoded_value(input).unwrap();
    let expected = BencodedValue::Dictionary(vec![
        (b"cow".to_vec(), bs(b"moo")),
        (b"spam".to_vec(), bs(b"eggs")),
    ]);
    assert!(v.equals(&expected));
    assert_eq!(v.encode(), input.to_vec());
}

#[test]
fn duplicate_dictionary_key_is_rejected() {
    let r = decode_bencoded_value(b"d3:foo3:bar3:fooi1ee");
    assert_eq!(r.unwrap_err(), TorrentError::DuplicateKeyError);
}

#[test]
fn unsorted_dictionary_decodes_to_sorted_form() {
    let v = decode_bencoded_value(b"d4:spam4:eggs3:cow3:mooe").unwrap();
    let expected = BencodedValue::Dictionary(vec![
        (b"cow".to_vec(), bs(b"moo")),
        (b"spam".to_vec(), bs(b"eggs")),
    ]);
    assert!(v.equals(&expected));
    assert_eq!(v.encode(), b"d3:cow3:moo4:spam4:eggse".to_vec());
}

#[test]
fn round_trip_of_constructed_value() {
    let v = BencodedValue::Dictionary(vec![
        (
            b"files".to_vec(),
            BencodedValue::List(vec![
                bs(b"alpha"),
                BencodedValue::Integer(7),
                BencodedValue::Dictionary(vec![]),
            ]),
        ),
        (b"z".to_vec(), BencodedValue::Integer(-1)),
    ]);
    let encoded = v.encode();
    let decoded = decode_bencoded_value(&encoded).unwrap();
    assert!(decoded.equals(&v));
    assert_eq!(decoded.encode(), encoded);
}

#[test]
fn self_length_matches_bytes_consumed_in_a_stream() {
    let v1 = BencodedValue::List(vec![bs(b"ab"), BencodedValue::Integer(300)]);
    let v2 = bs(b"tail");
    let mut stream = v1.encode();
    stream.extend(v2.encode());
    let (w1, n1) = decode_value_at(&stream, 0).unwrap();
    assert!(w1.equals(&v1));
    assert_eq!(n1, w1.get_byte_length());
    assert_eq!(n1, v1.encode().len());
    let (w2, n2) = decode_value_at(&stream, n1).unwrap();
    assert!(w2.equals(&v2));
    assert_eq!(n1 + n2, stream.len());
}

#[test]
fn integer_edge_values() {
    let v = decode_bencoded_value(b"i9223372036854775807e").unwrap();
    assert!(v.equals(&BencodedValue::Integer(i64::MAX)));
    let v = decode_bencoded_value(b"i-9223372036854775808e").unwrap();
    assert!(v.equals(&BencodedValue::Integer(i64::MIN)));
    assert_eq!(
        decode_bencoded_value(b"i9223372036854775808e").unwrap_err(),
        TorrentError::MalformedInputError
    );
}

#[test]
fn lenient_integer_forms() {
    let v = decode_bencoded_value(b"i042e").unwrap();
    assert!(v.equals(&BencodedValue::Integer(42)));
    let v = decode_bencoded_value(b"i+7e").unwrap();
    assert!(v.equals(&BencodedValue::Integer(7)));
    let v = decode_bencoded_value(b"i-0e").unwrap();
    assert!(v.equals(&BencodedValue::Integer(0)));
}

#[test]
fn malformed_inputs_are_rejected() {
    for bad in [
        &b""[..],
        b"x",
        b"i12",
        b"ie",
        b"i+e",
        b"i1x2e",
        b"5:hel",
        b"5x:hello",
        b"l4:spam",
        b"d3:cow",
        b"d3:cowe",
    ] {
        assert_eq!(
            decode_bencoded_value(bad).unwrap_err(),
            TorrentError::MalformedInputError,
            "input should be malformed"
        );
    }
}

#[test]
fn decode_integer_reports_consumed_bytes() {
    let (n, used) = decode_bencoded_integer(b"i-42e2:ok", 0).unwrap();
    assert_eq!(n, -42);
    assert_eq!(used, 5);
}

#[test]
fn byte_length_matches_encoding() {
    let v = BencodedValue::Dictionary(vec![
        (b"a".to_vec(), BencodedValue::Integer(-300)),
        (b"bb".to_vec(), BencodedValue::List(vec![bs(b"")])),
    ]);
    assert_eq!(v.get_byte_length(), v.encode().len());
}

#[test]
fn extractors_expose_the_variants() {
    let v = decode_bencoded_value(b"d3:numi5ee").unwrap();
    let entries = v.extract_dict().unwrap();
    assert_eq!(entries.len(), 1);
    assert_eq!(entries[0].0, b"num".to_vec());
    assert_eq!(entries[0].1.extract_integer().unwrap(), 5);
    assert!(v.extract_bstring().is_none());
    assert!(v.extract_integer().is_none());
    let s = decode_bencoded_value(b"3:abc").unwrap();
    assert_eq!(s.extract_bstring().unwrap(), &b"abc".to_vec());
    assert!(s.extract_dict().is_none());
}
