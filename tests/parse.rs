use dns_wire::parse::DNSQuestion;
use dns_wire::query::DNSHeader;
use dns_wire::{
    build_query, decode_name, decode_name_simple, ip_to_string, parse_header, parse_question, parse_record,
    DNSPacket, DnsError, TYPE_A,
};

/// A reply to the query for example.com with one A record whose name points back to offset 12.
fn example_reply() -> Vec<u8> {
    let mut msg = vec![
        0x00, 0x01, 0x81, 0x80, 0x00, 0x01, 0x00, 0x01, 0x00, 0x00, 0x00, 0x00,
    ];
    msg.extend_from_slice(b"\x07example\x03com\x00\x00\x01\x00\x01");
    msg.extend_from_slice(&[0xC0, 0x0C, 0x00, 0x01, 0x00, 0x01, 0x00, 0x00, 0x0E, 0x10, 0x00, 0x04]);
    msg.extend_from_slice(&[93, 184, 216, 34]);
    msg
}

#[test]
fn header_round_trip() {
    let header = DNSHeader {
        id: 0xBEEF,
        flags: 0x8180,
        num_questions: 1,
        num_answers: 2,
        num_authorities: 3,
        num_additionals: 65535,
    };
    let bytes = header.to_bytes();
    let mut pos = 0usize;
    assert_eq!(parse_header(&bytes, &mut pos), Ok(header));
    assert_eq!(pos, 12);
}

#[test]
fn short_header_is_truncated() {
    let bytes = [0u8; 11];
    let mut pos = 0usize;
    assert_eq!(parse_header(&bytes, &mut pos), Err(DnsError::TruncatedInput));
    assert_eq!(pos, 0);
    let mut pos = 0usize;
    assert_eq!(parse_header(&[], &mut pos), Err(DnsError::TruncatedInput));
}

#[test]
fn query_parses_back() {
    let query = build_query(b"example.com", TYPE_A).unwrap();
    let packet = DNSPacket::parse(&query).unwrap();
    assert_eq!(packet.header.id, 1);
    assert_eq!(packet.header.flags, 0x0100);
    assert_eq!(packet.questions.len(), 1);
    let DNSQuestion { name, type_, class } = &packet.questions[0];
    assert_eq!(name, "example.com");
    assert_eq!(*type_, 1);
    assert_eq!(*class, 1);
    assert!(packet.answers.is_empty());
}

#[test]
fn question_round_trip_with_cursor() {
    let query = build_query(b"www.rust-lang.org", 28).unwrap();
    let mut pos = 12usize;
    let q = parse_question(&query, &mut pos).unwrap();
    assert_eq!(q.name, "www.rust-lang.org");
    assert_eq!(q.type_, 28);
    assert_eq!(q.class, 1);
    assert_eq!(pos, query.len());
}

#[test]
fn reply_with_compressed_answer() {
    let msg = example_reply();
    let packet = DNSPacket::parse(&msg).unwrap();
    assert_eq!(packet.header.num_answers, 1);
    assert_eq!(packet.questions.len(), 1);
    assert_eq!(packet.answers.len(), 1);
    assert_eq!(packet.authorities.len(), 0);
    assert_eq!(packet.additionals.len(), 0);
    let answer = &packet.answers[0];
    assert_eq!(answer.name, "example.com");
    assert_eq!(answer.type_, 1);
    assert_eq!(answer.class, 1);
    assert_eq!(answer.ttl, 3600);
    assert_eq!(answer.data, vec![93, 184, 216, 34]);
    assert_eq!(ip_to_string(answer.data.clone()), "93.184.216.34");
}

#[test]
fn pointer_reads_as_its_target() {
    let msg = example_reply();
    let mut direct = 12usize;
    let mut via_pointer = 29usize;
    let a = decode_name(&msg, &mut direct).unwrap();
    let b = decode_name(&msg, &mut via_pointer).unwrap();
    assert_eq!(a, b);
    assert_eq!(direct, 25);
    assert_eq!(via_pointer, 31);
}

#[test]
fn pointer_after_labels() {
    let mut msg = example_reply();
    let start = msg.len();
    msg.extend_from_slice(b"\x03www\xC0\x0C");
    let mut pos = start;
    assert_eq!(decode_name(&msg, &mut pos).unwrap(), "www.example.com");
    assert_eq!(pos, start + 6);
}

#[test]
fn two_pointer_loop_is_rejected() {
    let msg = vec![0xC0, 0x02, 0xC0, 0x00];
    let mut pos = 0usize;
    assert_eq!(decode_name(&msg, &mut pos), Err(DnsError::CompressionLoop));
    assert_eq!(pos, 0);
    let mut pos = 2usize;
    assert_eq!(decode_name(&msg, &mut pos), Err(DnsError::CompressionLoop));
}

#[test]
fn self_pointer_is_rejected() {
    let msg = vec![0x01, b'a', 0xC0, 0x00];
    let mut pos = 0usize;
    assert_eq!(decode_name(&msg, &mut pos), Err(DnsError::CompressionLoop));
}

#[test]
fn truncated_label_is_rejected() {
    let msg = b"\x07exam".to_vec();
    let mut pos = 0usize;
    assert_eq!(decode_name(&msg, &mut pos), Err(DnsError::TruncatedInput));
    let msg = b"\x03com".to_vec();
    assert_eq!(decode_name(&msg, &mut pos), Err(DnsError::TruncatedInput));
    let msg = vec![0xC0];
    assert_eq!(decode_name(&msg, &mut pos), Err(DnsError::TruncatedInput));
}

#[test]
fn invalid_text_is_rejected() {
    let msg = vec![0x02, 0xFF, 0xFE, 0x00];
    let mut pos = 0usize;
    assert_eq!(decode_name(&msg, &mut pos), Err(DnsError::InvalidEncoding));
    assert_eq!(pos, 0);
}

#[test]
fn utf8_label_is_text() {
    let msg = [vec![0x02], "é".as_bytes().to_vec(), vec![0x00]].concat();
    let mut pos = 0usize;
    assert_eq!(decode_name(&msg, &mut pos).unwrap(), "é");
    assert_eq!(pos, 4);
}

#[test]
fn simple_decoder_reads_plain_names() {
    let msg = b"\x06google\x03com\x00".to_vec();
    let mut pos = 0usize;
    assert_eq!(decode_name_simple(&msg, &mut pos).unwrap(), "google.com");
    assert_eq!(pos, msg.len());
}

#[test]
fn simple_decoder_takes_pointer_byte_as_length() {
    let msg = vec![0xC0, 0x0C];
    let mut pos = 0usize;
    assert_eq!(decode_name_simple(&msg, &mut pos), Err(DnsError::TruncatedInput));
}

#[test]
fn record_data_past_end_is_truncated() {
    let mut msg = b"\x01a\x00".to_vec();
    msg.extend_from_slice(&[0x00, 0x01, 0x00, 0x01, 0x00, 0x00, 0x00, 0x3C, 0x00, 0x05, 1, 2, 3, 4]);
    let mut pos = 0usize;
    assert_eq!(parse_record(&msg, &mut pos).err(), Some(DnsError::TruncatedInput));
    assert_eq!(pos, 0);
    msg.push(5);
    let r = parse_record(&msg, &mut pos).unwrap();
    assert_eq!(r.data, vec![1, 2, 3, 4, 5]);
    assert_eq!(r.ttl, 60);
    assert_eq!(pos, msg.len());
}

#[test]
fn missing_record_fails_whole_parse() {
    let mut msg = example_reply();
    msg[7] = 2;
    assert_eq!(DNSPacket::parse(&msg).err(), Some(DnsError::TruncatedInput));
}

#[test]
fn ip_to_string_formats_decimal() {
    assert_eq!(ip_to_string(vec![0, 9, 10, 255]), "0.9.10.255");
    assert_eq!(ip_to_string(vec![100, 99]), "100.99");
    assert_eq!(ip_to_string(vec![]), "");
}
