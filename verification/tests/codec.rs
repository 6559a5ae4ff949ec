use dni_header::header::{fits, insert, read, Header, DNI_HDR_LEN};
use dni_header::DniError;

fn pair(k: &str, v: &str) -> (String, String) {
    (k.to_string(), v.to_string())
}

#[test]
fn round_trip_two_pairs() {
    let header: Header = vec![pair("board", "R7000"), pair("ver", "1")];
    let block = dni_header::header::write(&header);
    assert_eq!(block.len(), DNI_HDR_LEN);
    let decoded = read(&block).unwrap();
    assert_eq!(decoded, header);
}

#[test]
fn round_trip_empty_header() {
    let header: Header = Vec::new();
    let block = dni_header::header::write(&header);
    assert_eq!(block.len(), DNI_HDR_LEN);
    assert_eq!(block, vec![0u8; DNI_HDR_LEN]);
    let decoded = read(&block).unwrap();
    assert!(decoded.is_empty());
}

#[test]
fn encode_example_board_ver() {
    let header: Header = vec![pair("board", "R7000"), pair("ver", "1")];
    let block = dni_header::header::write(&header);
    let mut expected = b"board:R7000\nver:1\n".to_vec();
    assert_eq!(expected.len(), 18);
    expected.extend(std::iter::repeat(0u8).take(110));
    assert_eq!(block, expected);
}

#[test]
fn decode_short_block() {
    let block = b"a:b\n".to_vec();
    let decoded = read(&block).unwrap();
    assert_eq!(decoded, vec![pair("a", "b")]);
}

#[test]
fn decode_skips_empty_lines() {
    let block = b"a:1\n\n\nb:2\n".to_vec();
    let decoded = read(&block).unwrap();
    assert_eq!(decoded, vec![pair("a", "1"), pair("b", "2")]);
}

#[test]
fn decode_trims_null_padding() {
    let mut block = vec![0u8; 3];
    block.extend(b"a:1\nb:2\n".to_vec());
    block.extend(vec![0u8; 20]);
    let decoded = read(&block).unwrap();
    assert_eq!(decoded, vec![pair("a", "1"), pair("b", "2")]);
}

#[test]
fn decode_all_zero_block() {
    let block = vec![0u8; DNI_HDR_LEN];
    let decoded = read(&block).unwrap();
    assert!(decoded.is_empty());
}

#[test]
fn decode_value_keeps_later_colons() {
    let block = b"k:a:b\n".to_vec();
    let decoded = read(&block).unwrap();
    assert_eq!(decoded, vec![pair("k", "a:b")]);
}

#[test]
fn decode_missing_colon_is_malformed() {
    let block = b"good:1\nnocolon\n".to_vec();
    assert_eq!(read(&block), Err(DniError::MalformedField));
}

#[test]
fn decode_invalid_utf8_is_replaced() {
    let mut block = b"k:v".to_vec();
    block.push(0xFF);
    block.push(b'\n');
    let decoded = read(&block).unwrap();
    assert_eq!(decoded, vec![pair("k", "v\u{FFFD}")]);
}

#[test]
fn insert_overwrites_value_in_place() {
    let mut header: Header = vec![pair("a", "1"), pair("b", "2"), pair("c", "3")];
    insert(&mut header, "b".to_string(), "9".to_string());
    assert_eq!(header, vec![pair("a", "1"), pair("b", "9"), pair("c", "3")]);
}

#[test]
fn insert_appends_new_key() {
    let mut header: Header = vec![pair("a", "1"), pair("b", "2")];
    insert(&mut header, "d".to_string(), "4".to_string());
    assert_eq!(header, vec![pair("a", "1"), pair("b", "2"), pair("d", "4")]);
}

#[test]
fn fits_counts_encoded_bytes() {
    let header: Header = vec![pair("board", "R7000"), pair("ver", "1")];
    assert!(fits(&header));
    let big: Header = vec![pair("k", &"x".repeat(200))];
    assert!(!fits(&big));
    let exact: Header = vec![pair("k", &"x".repeat(125))];
    assert!(fits(&exact));
    let over: Header = vec![pair("k", &"x".repeat(126))];
    assert!(!over.is_empty());
    assert!(!fits(&over));
}
