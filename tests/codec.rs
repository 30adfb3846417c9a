use dns_codec::{parse_label, DNSHeader, DNSMessage, DNSQuestion, DNSResourceRecord, DnsError};

const QUERY: &str = "b7170100000100000000000006676f6f676c6503636f6d0000010001";
const RESPONSE: &str =
    "00008080000100010000000006676f6f676c6503636f6d0000010001c00c000100010000002d00048efa47ee";

fn question(name: &str, qtype: u16, qclass: u16) -> DNSQuestion {
    DNSQuestion { qname: name.to_string(), qtype, qclass }
}

fn record(name: &str, rdata: Vec<u8>) -> DNSResourceRecord {
    DNSResourceRecord { name: name.to_string(), rtype: 1, rclass: 1, ttl: 300, rdata }
}

#[test]
fn test_parse_dns_answer() {
    let bytes = hex::decode(RESPONSE).unwrap();
    let (dns_rr, next_offset) = DNSResourceRecord::from_bytes(&bytes, 28).unwrap();
    assert_eq!(dns_rr.name, "google.com");
    assert_eq!(dns_rr.rtype, 1);
    assert_eq!(dns_rr.rclass, 1);
    assert_eq!(dns_rr.ttl, 45);
    assert_eq!(dns_rr.rdata, vec![0x8e, 0xfa, 0x47, 0xee]);
    assert_eq!(next_offset, 44);
}

#[test]
fn test_parse_dns_message_with_pointer() {
    let bytes = hex::decode(RESPONSE).unwrap();

    let dns_message = DNSMessage::from_bytes(&bytes).unwrap();
    assert_eq!(dns_message.header.id, 0x0000);
    assert_eq!(dns_message.header.flags, 0x8080);
    assert_eq!(dns_message.header.qdcount, 1);
    assert_eq!(dns_message.header.ancount, 1);
    assert_eq!(dns_message.header.nscount, 0);
    assert_eq!(dns_message.header.arcount, 0);

    assert_eq!(dns_message.questions[0].qname, "google.com");
    assert_eq!(dns_message.questions[0].qtype, 1);
    assert_eq!(dns_message.questions[0].qclass, 1);
    assert_eq!(dns_message.answers.is_empty(), false);

    let answer = &dns_message.answers[0];
    assert_eq!(answer.name, "google.com");
    assert_eq!(answer.rtype, 1);
    assert_eq!(answer.rclass, 1);
    assert_eq!(answer.ttl, 45);
    assert_eq!(answer.rdata, vec![0x8e, 0xfa, 0x47, 0xee]);
}

#[test]
fn test_dns_header_from_bytes() {
    let bytes = hex::decode(QUERY).unwrap();
    let (dns_header, _) = DNSHeader::from_bytes(&bytes).unwrap();
    assert_eq!(dns_header.id, 0xb717);
    assert_eq!(dns_header.flags, 0x0100);
    assert_eq!(dns_header.qdcount, 1);
    assert_eq!(dns_header.ancount, 0);
    assert_eq!(dns_header.nscount, 0);
    assert_eq!(dns_header.arcount, 0);
}

#[test]
fn test_dns_question_from_bytes() {
    let bytes = hex::decode(QUERY).unwrap();
    let (dns_question, next_offset) = DNSQuestion::from_bytes(&bytes, 12).unwrap();
    assert_eq!(dns_question.qname, "google.com");
    assert_eq!(dns_question.qtype, 1);
    // The offset is absolute: nothing follows the question.
    assert_eq!(next_offset, bytes.len());
}

#[test]
fn test_dns_message_from_bytes() {
    let bytes = hex::decode(QUERY).unwrap();
    let dns_message = DNSMessage::from_bytes(&bytes).unwrap();
    assert_eq!(dns_message.header.id, 0xb717);
    assert_eq!(dns_message.header.flags, 0x0100);
    assert_eq!(dns_message.header.qdcount, 1);
    assert_eq!(dns_message.header.ancount, 0);
    assert_eq!(dns_message.header.nscount, 0);
    assert_eq!(dns_message.header.arcount, 0);
    assert_eq!(dns_message.questions[0].qname, "google.com");
    assert_eq!(dns_message.questions[0].qtype, 1);
    assert_eq!(dns_message.questions[0].qclass, 1);
    assert_eq!(dns_message.answers.is_empty(), true);
    assert_eq!(dns_message.authorities.is_empty(), true);
    assert_eq!(dns_message.additional.is_empty(), true);
}

#[test]
fn header_round_trip() {
    let h = DNSHeader { id: 0xb717, flags: 0x8180, qdcount: 1, ancount: 2, nscount: 3, arcount: 0xffff };
    let bytes = h.to_bytes();
    assert_eq!(bytes, hex::decode("b7178180000100020003ffff").unwrap());
    assert_eq!(DNSHeader::from_bytes(&bytes), Ok((h, 12)));
}

#[test]
fn header_too_short() {
    assert_eq!(DNSHeader::from_bytes(&[0u8; 11]), Err(DnsError::TruncatedInput));
}

#[test]
fn question_encoding_exact() {
    let q = question("google.com", 1, 1);
    let bytes = q.to_bytes().unwrap();
    assert_eq!(bytes, hex::decode("06676f6f676c6503636f6d0000010001").unwrap());
}

#[test]
fn question_round_trip() {
    let q = question("mail.example.org", 15, 1);
    let bytes = q.to_bytes().unwrap();
    assert_eq!(DNSQuestion::from_bytes(&bytes, 0), Ok((q, bytes.len())));
}

#[test]
fn record_encoding_exact() {
    let rr = DNSResourceRecord {
        name: "google.com".to_string(),
        rtype: 1,
        rclass: 1,
        ttl: 45,
        rdata: vec![0x8e, 0xfa, 0x47, 0xee],
    };
    let bytes = rr.to_bytes().unwrap();
    assert_eq!(
        bytes,
        hex::decode("06676f6f676c6503636f6d00000100010000002d00048efa47ee").unwrap()
    );
}

#[test]
fn record_round_trip() {
    let rr = DNSResourceRecord {
        name: "a.b.c".to_string(),
        rtype: 16,
        rclass: 1,
        ttl: 0xdead_beef,
        rdata: b"hello".to_vec(),
    };
    let bytes = rr.to_bytes().unwrap();
    assert_eq!(DNSResourceRecord::from_bytes(&bytes, 0), Ok((rr, bytes.len())));
}

#[test]
fn root_name_round_trip() {
    let q = question("", 2, 1);
    let bytes = q.to_bytes().unwrap();
    assert_eq!(bytes, vec![0, 0, 2, 0, 1]);
    assert_eq!(DNSQuestion::from_bytes(&bytes, 0), Ok((q, 5)));
}

#[test]
fn non_ascii_name_round_trip() {
    let q = question("bücher.de", 1, 1);
    let bytes = q.to_bytes().unwrap();
    assert_eq!(bytes[0], 7);
    assert_eq!(DNSQuestion::from_bytes(&bytes, 0), Ok((q, bytes.len())));
}

#[test]
fn invalid_utf8_label_is_replaced() {
    let bytes = vec![2, b'a', 0xff, 0];
    assert_eq!(parse_label(&bytes, 0), Ok(("a\u{fffd}".to_string(), 4)));
}

#[test]
fn pointer_resolves_to_earlier_name() {
    let bytes = hex::decode(RESPONSE).unwrap();
    assert_eq!(parse_label(&bytes, 28), Ok(("google.com".to_string(), 30)));
}

#[test]
fn pointer_after_labels() {
    // "www" followed by a pointer to "google.com" at offset 12.
    let mut bytes = hex::decode(QUERY).unwrap();
    bytes.extend_from_slice(&[3, b'w', b'w', b'w', 0xc0, 0x0c]);
    assert_eq!(parse_label(&bytes, 28), Ok(("www.google.com".to_string(), 34)));
}

#[test]
fn truncated_mid_label() {
    let bytes = hex::decode("06676f6f").unwrap();
    assert_eq!(parse_label(&bytes, 0), Err(DnsError::TruncatedInput));
    let mut query = hex::decode(QUERY).unwrap();
    query.truncate(16);
    assert_eq!(DNSQuestion::from_bytes(&query, 12), Err(DnsError::TruncatedInput));
    assert_eq!(DNSMessage::from_bytes(&query), Err(DnsError::TruncatedInput));
}

#[test]
fn name_without_terminator() {
    assert_eq!(parse_label(&[3, b'c', b'o', b'm'], 0), Err(DnsError::TruncatedInput));
    assert_eq!(parse_label(&[], 0), Err(DnsError::TruncatedInput));
    assert_eq!(parse_label(&[0xc0], 0), Err(DnsError::TruncatedInput));
}

#[test]
fn self_pointer_is_a_loop() {
    assert_eq!(parse_label(&[0xc0, 0x00], 0), Err(DnsError::CompressionLoop));
    let mut bytes = hex::decode(QUERY).unwrap();
    bytes.truncate(12);
    bytes.extend_from_slice(&[0xc0, 0x0c]);
    assert_eq!(parse_label(&bytes, 12), Err(DnsError::CompressionLoop));
}

#[test]
fn two_pointers_in_a_cycle_are_a_loop() {
    assert_eq!(parse_label(&[0xc0, 0x02, 0xc0, 0x00], 0), Err(DnsError::CompressionLoop));
}

#[test]
fn pointer_past_the_end() {
    assert_eq!(parse_label(&[0xc0, 0x10], 0), Err(DnsError::TruncatedInput));
}

#[test]
fn reserved_label_length() {
    assert_eq!(parse_label(&[0x40, 0], 0), Err(DnsError::InvalidLabelLength));
    assert_eq!(parse_label(&[0xbf, 0], 0), Err(DnsError::InvalidLabelLength));
}

#[test]
fn rdlength_past_the_end() {
    let mut bytes = hex::decode(RESPONSE).unwrap();
    // rdlength 0x0005 where only four bytes of data follow.
    bytes[39] = 5;
    assert_eq!(DNSResourceRecord::from_bytes(&bytes, 28), Err(DnsError::TruncatedInput));
    assert_eq!(DNSMessage::from_bytes(&bytes), Err(DnsError::TruncatedInput));
}

#[test]
fn count_beyond_entries() {
    // The header announces one answer, but none follows the question.
    let mut bytes = hex::decode(QUERY).unwrap();
    bytes[7] = 1;
    assert_eq!(DNSMessage::from_bytes(&bytes), Err(DnsError::TruncatedInput));
}

#[test]
fn empty_label_is_refused() {
    assert_eq!(question("a..b", 1, 1).to_bytes(), Err(DnsError::EmptyLabel));
    assert_eq!(question(".", 1, 1).to_bytes(), Err(DnsError::EmptyLabel));
    assert_eq!(question("com.", 1, 1).to_bytes(), Err(DnsError::EmptyLabel));
}

#[test]
fn long_label_is_refused() {
    let long = "a".repeat(64);
    assert_eq!(question(&long, 1, 1).to_bytes(), Err(DnsError::LabelTooLong));
    let ok = "a".repeat(63);
    assert_eq!(question(&ok, 1, 1).to_bytes().unwrap().len(), 1 + 63 + 1 + 4);
}

#[test]
fn long_name_is_refused() {
    // Four labels of 63 bytes: 4 * 64 + 1 = 257 bytes on the wire.
    let label = "a".repeat(63);
    let name = vec![label.clone(), label.clone(), label.clone(), label].join(".");
    assert_eq!(question(&name, 1, 1).to_bytes(), Err(DnsError::NameTooLong));
    // 255 bytes on the wire is still accepted.
    let short = "a".repeat(61);
    let name = vec!["a".repeat(63), "a".repeat(63), "a".repeat(63), short].join(".");
    assert_eq!(question(&name, 1, 1).to_bytes().unwrap().len(), 255 + 4);
}

#[test]
fn long_rdata_is_refused() {
    assert_eq!(record("x", vec![0; 0x10000]).to_bytes(), Err(DnsError::DataTooLong));
    assert_eq!(record("x", vec![0; 0xffff]).to_bytes().unwrap().len(), 3 + 10 + 0xffff);
}

#[test]
fn message_round_trip() {
    let msg = DNSMessage::new(
        0x1234,
        0x8180,
        vec![question("example.com", 1, 1), question("example.net", 28, 1)],
        vec![record("example.com", vec![93, 184, 216, 34])],
        vec![record("com", b"ns".to_vec())],
        vec![],
    )
    .unwrap();
    assert_eq!(msg.header.qdcount, 2);
    assert_eq!(msg.header.ancount, 1);
    assert_eq!(msg.header.nscount, 1);
    assert_eq!(msg.header.arcount, 0);
    let bytes = msg.to_bytes().unwrap();
    assert_eq!(DNSMessage::from_bytes(&bytes), Ok(msg));
}

#[test]
fn message_encoding_exact() {
    let msg = DNSMessage::new(0xb717, 0x0100, vec![question("google.com", 1, 1)], vec![], vec![], vec![])
        .unwrap();
    assert_eq!(msg.to_bytes().unwrap(), hex::decode(QUERY).unwrap());
}

#[test]
fn message_encoding_fails_on_bad_entry() {
    let msg = DNSMessage::new(1, 0, vec![], vec![record("a..b", vec![])], vec![], vec![]).unwrap();
    assert_eq!(msg.to_bytes(), Err(DnsError::EmptyLabel));
}

#[test]
fn too_many_entries() {
    let qs = vec![question("a", 1, 1); 0x10000];
    assert_eq!(DNSMessage::new(1, 0, qs, vec![], vec![], vec![]), Err(DnsError::TooManyEntries));
}

#[test]
fn trailing_bytes_are_ignored() {
    let mut bytes = hex::decode(QUERY).unwrap();
    bytes.extend_from_slice(&[1, 2, 3]);
    let msg = DNSMessage::from_bytes(&bytes).unwrap();
    assert_eq!(msg.questions.len(), 1);
}
