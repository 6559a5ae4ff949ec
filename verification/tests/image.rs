use dni_header::checksum::calculate_checksum;
use dni_header::header::{read, DNI_HDR_LEN};
use dni_header::image::{checksum_matches, checksum_report, set_image};
use dni_header::DniError;

fn pair(k: &str, v: &str) -> (String, String) {
    (k.to_string(), v.to_string())
}

fn wrapping_sum_of(bytes: &[u8]) -> u8 {
    let mut sum = 0u8;
    for b in bytes {
        sum = sum.wrapping_add(*b);
    }
    sum
}

#[test]
fn checksum_example_one_two_three() {
    let bytes = vec![0x01u8, 0x02, 0x03];
    assert_eq!(calculate_checksum(&bytes), Ok(0xFC));
}

#[test]
fn checksum_is_deterministic() {
    let bytes = vec![0x17u8, 0x00, 0xAB, 0x42, 0xFF];
    let first = calculate_checksum(&bytes).unwrap();
    let second = calculate_checksum(&bytes).unwrap();
    assert_eq!(first, second);
}

#[test]
fn checksum_empty_fails() {
    let bytes: Vec<u8> = Vec::new();
    assert_eq!(calculate_checksum(&bytes), Err(DniError::EmptyImage));
}

#[test]
fn checksum_wraps_like_a_device() {
    // sum wraps to 0x10; subtracting the last byte 0x90 underflows to 0x80
    let bytes = vec![0x80u8, 0x90];
    assert_eq!(calculate_checksum(&bytes), Ok(0x7F));
}

#[test]
fn checksum_report_match_and_mismatch() {
    let good = vec![0x01u8, 0x02, 0xFC];
    let report = checksum_report(&good).unwrap();
    assert_eq!(report.computed, 0xFC);
    assert_eq!(report.stored, 0xFC);
    assert!(checksum_matches(&report));

    let bad = vec![0x01u8, 0x02, 0x03];
    let report = checksum_report(&bad).unwrap();
    assert_eq!(report.computed, 0xFC);
    assert_eq!(report.stored, 0x03);
    assert!(!checksum_matches(&report));
}

#[test]
fn checksum_report_empty_fails() {
    let empty: Vec<u8> = Vec::new();
    assert_eq!(checksum_report(&empty), Err(DniError::EmptyImage));
}

#[test]
fn set_rewrites_value_keeps_payload() {
    let mut input = b"ver:1\nboard:R7000\n".to_vec();
    input.resize(DNI_HDR_LEN, 0);
    input.extend(vec![0x10u8, 0x20, 0x30]);

    let out = set_image(&input, "ver".to_string(), "2".to_string()).unwrap();

    let block: Vec<u8> = out[..DNI_HDR_LEN].to_vec();
    let header = read(&block).unwrap();
    assert_eq!(header, vec![pair("ver", "2"), pair("board", "R7000")]);

    // the payload is copied verbatim, except the final byte
    assert_eq!(out.len(), input.len());
    assert_eq!(&out[DNI_HDR_LEN..out.len() - 1], &input[DNI_HDR_LEN..input.len() - 1]);

    // the trailing byte is the freshly computed checksum
    let expected = 0xFFu8 - wrapping_sum_of(&out[..out.len() - 1]);
    assert_eq!(out[out.len() - 1], expected);

    // the written image is self-consistent
    let report = checksum_report(&out).unwrap();
    assert!(checksum_matches(&report));
}

#[test]
fn set_appends_new_key() {
    let mut input = b"board:R7000\n".to_vec();
    input.resize(DNI_HDR_LEN, 0);
    input.extend(vec![0xAAu8, 0xBB]);

    let out = set_image(&input, "ver".to_string(), "7".to_string()).unwrap();
    let block: Vec<u8> = out[..DNI_HDR_LEN].to_vec();
    let header = read(&block).unwrap();
    assert_eq!(header, vec![pair("board", "R7000"), pair("ver", "7")]);
}

#[test]
fn set_short_input_pads_block() {
    // an input shorter than the block still yields a full padded block
    let input = b"a:1\n".to_vec();
    let out = set_image(&input, "b".to_string(), "2".to_string()).unwrap();
    assert_eq!(out.len(), DNI_HDR_LEN);
    // the checksum overwrote the last padding byte; the bytes before it
    // still decode to the updated header
    let block: Vec<u8> = out[..out.len() - 1].to_vec();
    let header = read(&block).unwrap();
    assert_eq!(header, vec![pair("a", "1"), pair("b", "2")]);
    let report = checksum_report(&out).unwrap();
    assert!(checksum_matches(&report));
}

#[test]
fn set_malformed_header_fails() {
    let mut input = b"nocolon\n".to_vec();
    input.resize(DNI_HDR_LEN, 0);
    assert_eq!(
        set_image(&input, "k".to_string(), "v".to_string()),
        Err(DniError::MalformedField)
    );
}

#[test]
fn set_oversized_header_fails() {
    let mut input = b"board:R7000\n".to_vec();
    input.resize(DNI_HDR_LEN, 0);
    let long_value = "y".repeat(130);
    assert_eq!(
        set_image(&input, "ver".to_string(), long_value),
        Err(DniError::HeaderOverflow)
    );
}
