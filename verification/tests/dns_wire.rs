use selium::dns::wire::{
    encode_query, parse_response, WireError, CLASS_IN, TYPE_AAAA,
};
use selium::dns::{DnsOutcome, DnsQuery, DnsRecordType, DnsResponse};

/// A known-good DNS query for `example.com` A with id 0x1234.
const EXAMPLE_COM_A_QUERY: &[u8] = &[
    0x12, 0x34, 0x01, 0x00, 0x00, 0x01, 0x00, 0x00, 0x00, 0x00, 0x00, 0x00, 0x07, b'e', b'x',
    b'a', b'm', b'p', b'l', b'e', 0x03, b'c', b'o', b'm', 0x00, 0x00, 0x01, 0x00, 0x01,
];

/// A known-good DNS response for `example.com` A = 93.184.216.34.
const EXAMPLE_COM_A_RESPONSE: &[u8] = &[
    0x12, 0x34, 0x81, 0x80, 0x00, 0x01, 0x00, 0x01, 0x00, 0x00, 0x00, 0x00, 0x07, b'e', b'x',
    b'a', b'm', b'p', b'l', b'e', 0x03, b'c', b'o', b'm', 0x00, 0x00, 0x01, 0x00, 0x01, 0xC0,
    0x0C, 0x00, 0x01, 0x00, 0x01, 0x00, 0x00, 0x00, 0x3C, 0x00, 0x04, 0x5D, 0xB8, 0xD8, 0x22,
];

fn question_section() -> &'static [u8] {
    &EXAMPLE_COM_A_QUERY[12..]
}

#[test]
fn encode_query_matches_known_good_packet() {
    let query = DnsQuery::from_str("example.com", DnsRecordType::A);
    let encoded = encode_query(&query, 0x1234).expect("encode query");
    assert_eq!(encoded, EXAMPLE_COM_A_QUERY);
}

#[test]
fn encode_query_aaaa_selects_record_type() {
    let query = DnsQuery::from_str("example.com", DnsRecordType::Aaaa);
    let encoded = encode_query(&query, 0x0001).expect("encode query");
    let len = encoded.len();
    assert_eq!(&encoded[len - 4..len - 2], &TYPE_AAAA.to_be_bytes());
    assert_eq!(&encoded[len - 2..], &CLASS_IN.to_be_bytes());
}

#[test]
fn parse_known_good_response() {
    let parsed = parse_response(EXAMPLE_COM_A_RESPONSE).expect("parse response");
    assert_eq!(parsed.txid, 0x1234);
    assert_eq!(parsed.outcome, DnsOutcome::Success);
    assert_eq!(parsed.addresses, vec!["93.184.216.34".to_string()]);
}

#[test]
fn parse_nxdomain_response() {
    let mut packet = EXAMPLE_COM_A_QUERY.to_vec();
    packet[2] = 0x81;
    packet[3] = 0x83;
    packet[7] = 0x00;

    let parsed = parse_response(&packet).expect("parse response");
    assert_eq!(parsed.outcome, DnsOutcome::NxDomain);
    assert!(parsed.addresses.is_empty());
}

#[test]
fn parse_truncated_response() {
    let mut packet = EXAMPLE_COM_A_QUERY.to_vec();
    packet[2] = 0x83;
    packet[3] = 0x80;

    let parsed = parse_response(&packet).expect("parse response");
    assert_eq!(parsed.outcome, DnsOutcome::Truncated);
}

#[test]
fn parse_servfail_response() {
    let mut packet = EXAMPLE_COM_A_QUERY.to_vec();
    packet[2] = 0x81;
    packet[3] = 0x82;
    packet[7] = 0x00;

    let parsed = parse_response(&packet).expect("parse response");
    assert_eq!(parsed.outcome, DnsOutcome::ServFail);
}

#[test]
fn parse_refused_response() {
    let mut packet = EXAMPLE_COM_A_QUERY.to_vec();
    packet[2] = 0x81;
    packet[3] = 0x85;
    packet[7] = 0x00;

    let parsed = parse_response(&packet).expect("parse response");
    assert_eq!(parsed.outcome, DnsOutcome::Refused);
}

#[test]
fn parse_unhandled_rcode_maps_to_upstream() {
    let mut packet = EXAMPLE_COM_A_QUERY.to_vec();
    packet[2] = 0x81;
    packet[3] = 0x84;
    packet[7] = 0x00;

    let parsed = parse_response(&packet).expect("parse response");
    assert_eq!(parsed.outcome, DnsOutcome::Upstream);
}

#[test]
fn parse_aaaa_response() {
    let mut packet = vec![
        0x00, 0x01, 0x81, 0x80, 0x00, 0x01, 0x00, 0x01, 0x00, 0x00, 0x00, 0x00,
    ];
    packet.extend_from_slice(question_section());
    packet.extend_from_slice(&[0xC0, 0x0C]);
    packet.extend_from_slice(&TYPE_AAAA.to_be_bytes());
    packet.extend_from_slice(&CLASS_IN.to_be_bytes());
    packet.extend_from_slice(&[0x00, 0x00, 0x00, 0x3C]);
    packet.extend_from_slice(&16u16.to_be_bytes());
    packet.extend_from_slice(&[0x20, 0x01, 0x0d, 0xb8, 0, 0, 0, 0, 0, 0, 0, 0, 0, 0, 0, 1]);

    let parsed = parse_response(&packet).expect("parse response");
    assert_eq!(parsed.outcome, DnsOutcome::Success);
    assert_eq!(parsed.addresses, vec!["2001:db8::1".to_string()]);
}

#[test]
fn parse_short_packet_is_error() {
    assert!(matches!(
        parse_response(&[0x12, 0x34, 0x81]),
        Err(WireError::Short)
    ));
}

#[test]
fn encode_query_rejects_oversized_label() {
    let long_label = "a".repeat(64);
    let query = DnsQuery::from_str(&format!("{long_label}.com"), DnsRecordType::A);
    assert!(matches!(
        encode_query(&query, 1),
        Err(WireError::NameTooLong)
    ));
}

#[test]
fn round_trip_through_typed_surface() {
    let parsed = parse_response(EXAMPLE_COM_A_RESPONSE).expect("parse");
    let response = match parsed.outcome {
        DnsOutcome::Success => DnsResponse::ok(parsed.addresses),
        other => DnsResponse::failure(other),
    };
    assert_eq!(response.outcome, DnsOutcome::Success);
    assert_eq!(response.addresses, vec!["93.184.216.34".to_string()]);
}

// ---------------------------------------------------------------------------
// Further cases.
// ---------------------------------------------------------------------------

#[test]
fn encode_query_ignores_trailing_dots_and_encodes_root() {
    let dotted = encode_query(&DnsQuery::from_str("example.com..", DnsRecordType::A), 0x1234)
        .expect("encode");
    assert_eq!(dotted, EXAMPLE_COM_A_QUERY);
    let root = encode_query(&DnsQuery::from_str("", DnsRecordType::Cname), 7).expect("root");
    assert_eq!(root, vec![0, 7, 1, 0, 0, 1, 0, 0, 0, 0, 0, 0, 0, 0, 5, 0, 1]);
}

#[test]
fn encode_query_rejects_empty_label() {
    let query = DnsQuery::from_str("a..com", DnsRecordType::A);
    assert_eq!(encode_query(&query, 1), Err(WireError::Malformed));
}

#[test]
fn encode_query_reports_first_faulty_label() {
    let long_label = "b".repeat(64);
    let query = DnsQuery::from_str(&format!("{long_label}..com"), DnsRecordType::A);
    assert_eq!(encode_query(&query, 1), Err(WireError::NameTooLong));
    let query = DnsQuery::from_str(&format!("a..{long_label}"), DnsRecordType::A);
    assert_eq!(encode_query(&query, 1), Err(WireError::Malformed));
}

#[test]
fn encode_query_rejects_overlong_name() {
    let label = "c".repeat(63);
    let name = format!("{label}.{label}.{label}.{label}");
    let query = DnsQuery::from_str(&name, DnsRecordType::A);
    assert_eq!(encode_query(&query, 1), Err(WireError::NameTooLong));
    let shorter = format!("{label}.{label}.{label}.{}", "c".repeat(61));
    let query = DnsQuery::from_str(&shorter, DnsRecordType::A);
    assert_eq!(encode_query(&query, 1).expect("fits").len(), 12 + 255 + 4);
}

#[test]
fn parse_rejects_compression_loop() {
    let mut packet = vec![0x00, 0x01, 0x81, 0x80, 0x00, 0x01, 0x00, 0x00, 0x00, 0x00, 0x00, 0x00];
    packet.extend_from_slice(&[0xC0, 0x0C]);
    assert_eq!(parse_response(&packet), Err(WireError::CompressionLoop));
}

#[test]
fn parse_rejects_reserved_label_type() {
    let mut packet = vec![0x00, 0x01, 0x81, 0x80, 0x00, 0x01, 0x00, 0x00, 0x00, 0x00, 0x00, 0x00];
    packet.extend_from_slice(&[0x40, 0x00]);
    assert_eq!(parse_response(&packet), Err(WireError::Malformed));
}

#[test]
fn parse_rejects_non_utf8_label() {
    let mut packet = vec![0x00, 0x01, 0x81, 0x80, 0x00, 0x01, 0x00, 0x00, 0x00, 0x00, 0x00, 0x00];
    packet.extend_from_slice(&[0x01, 0xff, 0x00, 0x00, 0x01, 0x00, 0x01]);
    assert_eq!(parse_response(&packet), Err(WireError::Malformed));
}

#[test]
fn parse_rejects_short_rdata() {
    let mut packet = EXAMPLE_COM_A_RESPONSE.to_vec();
    packet.pop();
    assert_eq!(parse_response(&packet), Err(WireError::Short));
}

#[test]
fn parse_skips_other_record_types_and_maps_ipv4_mapped_addresses() {
    let mut packet = vec![0x00, 0x02, 0x81, 0x80, 0x00, 0x00, 0x00, 0x02, 0x00, 0x00, 0x00, 0x00];
    // CNAME record: root name, type 5, class IN, ttl, rdlength 1, rdata 0.
    packet.extend_from_slice(&[0x00, 0x00, 0x05, 0x00, 0x01, 0, 0, 0, 0, 0x00, 0x01, 0x00]);
    // AAAA record carrying ::ffff:10.0.0.1.
    packet.extend_from_slice(&[0x00, 0x00, 0x1c, 0x00, 0x01, 0, 0, 0, 0, 0x00, 0x10]);
    packet.extend_from_slice(&[0, 0, 0, 0, 0, 0, 0, 0, 0, 0, 0xff, 0xff, 10, 0, 0, 1]);
    let parsed = parse_response(&packet).expect("parse");
    assert_eq!(parsed.txid, 2);
    assert_eq!(parsed.addresses, vec!["::ffff:10.0.0.1".to_string()]);
}

#[test]
fn parse_formats_ipv6_like_std() {
    let cases: [([u8; 16], &str); 4] = [
        (
            [0x26, 0x06, 0x28, 0x00, 0x02, 0x20, 0x00, 0x01, 0x02, 0x48, 0x18, 0x93, 0x25, 0xc8, 0x19, 0x46],
            "2606:2800:220:1:248:1893:25c8:1946",
        ),
        ([0; 16], "::"),
        ([0, 1, 0, 0, 0, 2, 0, 0, 0, 0, 0, 3, 0, 0, 0, 0], "1:0:2::3:0:0"),
        ([0xfe, 0x80, 0, 0, 0, 0, 0, 0, 0, 0, 0, 0, 0, 0, 0, 0], "fe80::"),
    ];
    for (octets, text) in cases {
        let mut packet = vec![0x00, 0x03, 0x81, 0x80, 0x00, 0x00, 0x00, 0x01, 0x00, 0x00, 0x00, 0x00];
        packet.extend_from_slice(&[0x00, 0x00, 0x1c, 0x00, 0x01, 0, 0, 0, 0, 0x00, 0x10]);
        packet.extend_from_slice(&octets);
        let parsed = parse_response(&packet).expect("parse");
        assert_eq!(parsed.addresses, vec![text.to_string()]);
    }
}
