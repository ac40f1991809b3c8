use dns_wire::query::DNSHeader;
use dns_wire::{build_query, build_query_with_id, encode_dns_name, DnsError, TYPE_A};

#[test]
fn build_query_test() {
    const DOMAIN_NAME: &[u8; 11] = b"example.com";
    assert_eq!(
        &build_query(DOMAIN_NAME, TYPE_A).unwrap(),
        b"\x00\x01\x01\x00\x00\x01\x00\x00\x00\x00\x00\x00\x07example\x03com\x00\x00\x01\x00\x01"
    );
}

#[test]
fn encode_dns_name_test() {
    const DOMAIN_NAME: &[u8; 10] = b"google.com";
    assert_eq!(&encode_dns_name(DOMAIN_NAME).unwrap(), b"\x06google\x03com\x00")
}

#[test]
fn pack() {
    let mut result = [0u8; 4];
    result[..2].copy_from_slice(&5u16.to_be_bytes());
    result[2..].copy_from_slice(&23u16.to_be_bytes());
    assert_eq!(&result, b"\x00\x05\x00\x17");
}

#[test]
fn pack_format() {
    let header = DNSHeader {
        id: 0x1314,
        flags: 0,
        num_questions: 1,
        num_additionals: 0,
        num_authorities: 0,
        num_answers: 0,
    };
    assert_eq!(
        &header.to_bytes(),
        b"\x13\x14\x00\x00\x00\x01\x00\x00\x00\x00\x00\x00"
    );
}

#[test]
fn header_bytes_are_big_endian() {
    let header = DNSHeader {
        id: 0xABCD,
        flags: 0x0100,
        num_questions: 2,
        num_answers: 0x0304,
        num_authorities: 5,
        num_additionals: 0xFFFF,
    };
    assert_eq!(
        header.to_bytes(),
        [0xAB, 0xCD, 0x01, 0x00, 0x00, 0x02, 0x03, 0x04, 0x00, 0x05, 0xFF, 0xFF]
    );
}

#[test]
fn build_query_uses_given_id_and_type() {
    let q = build_query_with_id(b"a.b", 28, 0x1234).unwrap();
    assert_eq!(
        q,
        vec![
            0x12, 0x34, 0x01, 0x00, 0x00, 0x01, 0x00, 0x00, 0x00, 0x00, 0x00, 0x00, 1, b'a', 1, b'b', 0,
            0x00, 28, 0x00, 0x01
        ]
    );
}

#[test]
fn encode_single_label() {
    assert_eq!(encode_dns_name(b"localhost").unwrap(), b"\x09localhost\x00".to_vec());
}

#[test]
fn encode_empty_name() {
    assert_eq!(encode_dns_name(b"").unwrap(), vec![0u8, 0u8]);
}

#[test]
fn encode_accepts_63_byte_label() {
    let label = vec![b'x'; 63];
    let out = encode_dns_name(&label).unwrap();
    assert_eq!(out.len(), 65);
    assert_eq!(out[0], 63);
    assert_eq!(out[64], 0);
}

#[test]
fn encode_rejects_64_byte_label() {
    let mut name = b"ok.".to_vec();
    name.extend(vec![b'x'; 64]);
    name.extend_from_slice(b".com");
    assert_eq!(encode_dns_name(&name), Err(DnsError::LabelTooLong));
    assert_eq!(build_query(&name, TYPE_A), Err(DnsError::LabelTooLong));
}
