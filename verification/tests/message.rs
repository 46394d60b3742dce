use dns_codec::dns_components::dns_header::DnsHeader;
use dns_codec::dns_components::dns_message::DnsMessage;
use dns_codec::dns_components::dns_name::{DnsLabel, DnsName};
use dns_codec::dns_components::dns_question::DnsQuestion;
use dns_codec::dns_components::dns_rdata::{DnsRdata, Ipv4Addr};
use dns_codec::dns_components::dns_rr::DnsResourceRecord;
use dns_codec::error::DnsError;

fn message_msg0_bytes() -> Vec<u8> {
    vec![
        0xaa, 0xaa, 0x81, 0x80, 0x0, 0x1, 0x0, 0x1, 0x0, 0x0, 0x0, 0x0, 0x7, 0x65, 0x78, 0x61,
        0x6d, 0x70, 0x6c, 0x65, 0x3, 0x63, 0x6f, 0x6d, 0x0, 0x0, 0x1, 0x0, 0x1, 0xc0, 0xc, 0x0,
        0x1, 0x0, 0x1, 0x0, 0x0, 0xb, 0xbb, 0x0, 0x4, 0x5d, 0xb8, 0xd7, 0xe,
    ]
}

fn example_com() -> DnsName {
    DnsName {
        labels: vec![
            DnsLabel { label: vec![101, 120, 97, 109, 112, 108, 101] },
            DnsLabel { label: vec![99, 111, 109] },
        ],
    }
}

fn msg0_message() -> DnsMessage {
    DnsMessage {
        header: DnsHeader {
            id: 43690,
            qr: true,
            opcode: 0,
            aa: false,
            tc: false,
            rd: true,
            ra: true,
            z: 0,
            rcode: 0,
            qdcount: 1,
            ancount: 1,
            nscount: 0,
            arcount: 0,
        },
        questions: vec![DnsQuestion { qname: example_com(), qtype: 1, qclass: 1 }],
        answers: vec![
            DnsResourceRecord {
                name: example_com(),
                rtype: 1,
                class: 1,
                ttl: 3003,
                rdlength: 4,
                rdata_raw: vec![93, 184, 215, 14],
                rdata: DnsRdata::ARecord(Ipv4Addr::new(93, 184, 215, 14)),
            },
        ],
        authorities: vec![],
        additionals: vec![],
    }
}

#[test]
fn parse_message_ok() {
    let data = message_msg0_bytes();
    let res = DnsMessage::parse(&data);
    assert!(res.is_ok());
    let msg = res.unwrap();
    assert_eq!(msg, msg0_message());
}

#[test]
fn message_in_a_receive_buffer_decodes() {
    let mut buffer = [0u8; 512];
    let data = message_msg0_bytes();
    buffer[..data.len()].copy_from_slice(&data);
    assert_eq!(DnsMessage::parse(&buffer), Ok(msg0_message()));
}

#[test]
fn message_single_query_bytes() {
    let query = DnsMessage::single_query("example.com");
    assert_eq!(query.header, DnsHeader::query(0xABBA, 1, false));
    assert_eq!(query.questions, vec![DnsQuestion::query("example.com")]);
    assert!(query.answers.is_empty() && query.authorities.is_empty());
    assert!(query.additionals.is_empty());
    assert_eq!(
        query.to_bytes().unwrap(),
        vec![
            0xAB, 0xBA, 0x01, 0x00, 0x00, 0x01, 0x00, 0x00, 0x00, 0x00, 0x00, 0x00, 0x07, 0x65,
            0x78, 0x61, 0x6d, 0x70, 0x6c, 0x65, 0x03, 0x63, 0x6f, 0x6d, 0x00, 0x00, 0x01, 0x00,
            0x01,
        ]
    );
}

fn address_record(host: &str, ttl: u32, addr: [u8; 4]) -> DnsResourceRecord {
    DnsResourceRecord {
        name: DnsName::from_string(host),
        rtype: 1,
        class: 1,
        ttl,
        rdlength: 4,
        rdata: DnsRdata::ARecord(Ipv4Addr::new(addr[0], addr[1], addr[2], addr[3])),
        rdata_raw: addr.to_vec(),
    }
}

fn alias_record(host: &str, target: &str) -> DnsResourceRecord {
    let alias = DnsName::from_string(target);
    let raw = alias.to_bytes().unwrap();
    DnsResourceRecord {
        name: DnsName::from_string(host),
        rtype: 5,
        class: 1,
        ttl: 60,
        rdlength: raw.len() as u16,
        rdata: DnsRdata::CnameRecord(alias),
        rdata_raw: raw,
    }
}

fn full_message() -> DnsMessage {
    DnsMessage {
        header: DnsHeader {
            id: 0x0102,
            qr: true,
            opcode: 2,
            aa: true,
            tc: false,
            rd: true,
            ra: false,
            z: 0,
            rcode: 3,
            qdcount: 2,
            ancount: 2,
            nscount: 1,
            arcount: 1,
        },
        questions: vec![DnsQuestion::query("www.example.org"), DnsQuestion::query("example.org")],
        answers: vec![
            alias_record("www.example.org", "example.org"),
            address_record("example.org", 3600, [192, 0, 2, 1]),
        ],
        authorities: vec![alias_record("ns.example.org", "a.iana-servers.net")],
        additionals: vec![address_record("a.iana-servers.net", 1, [199, 43, 135, 53])],
    }
}

#[test]
fn message_round_trip_on_values() {
    for message in [msg0_message(), DnsMessage::single_query("a.b.c"), full_message()] {
        let bytes = message.to_bytes().unwrap();
        assert_eq!(DnsMessage::parse(&bytes), Ok(message));
    }
}

#[test]
fn message_to_bytes_concatenates_its_parts() {
    let message = full_message();
    let mut expected = message.header.to_bytes().to_vec();
    for question in &message.questions {
        expected.extend(question.to_bytes().unwrap());
    }
    for record in message.answers.iter().chain(&message.authorities).chain(&message.additionals) {
        expected.extend(record.to_bytes().unwrap());
    }
    assert_eq!(message.to_bytes().unwrap(), expected);
}

#[test]
fn message_truncated_anywhere_fails() {
    for message in [msg0_message(), DnsMessage::single_query("example.com"), full_message()] {
        let bytes = message.to_bytes().unwrap();
        for cut in 0..bytes.len() {
            assert_eq!(DnsMessage::parse(&bytes[..cut]), Err(DnsError::Truncated));
        }
    }
    // The same holds of the compressed message as it was received.
    let bytes = message_msg0_bytes();
    for cut in 0..bytes.len() {
        assert_eq!(DnsMessage::parse(&bytes[..cut]), Err(DnsError::Truncated));
    }
}

#[test]
fn message_first_failure_aborts() {
    // A reserved header bit.
    let mut bytes = message_msg0_bytes();
    bytes[3] |= 0x10;
    assert_eq!(DnsMessage::parse(&bytes), Err(DnsError::InvalidField));
    // An unsupported record type in the answer section.
    let mut bytes = message_msg0_bytes();
    bytes[32] = 0x10;
    assert_eq!(DnsMessage::parse(&bytes), Err(DnsError::Unsupported));
    // An address record of five bytes.
    let mut bytes = message_msg0_bytes();
    bytes[40] = 5;
    bytes.push(0);
    assert_eq!(DnsMessage::parse(&bytes), Err(DnsError::InvalidField));
    // A name whose pointer leads to itself.
    let mut bytes = message_msg0_bytes();
    bytes[30] = 29;
    assert_eq!(DnsMessage::parse(&bytes), Err(DnsError::PointerLoop));
    // More answers announced than there are.
    let mut bytes = message_msg0_bytes();
    bytes[7] = 2;
    assert_eq!(DnsMessage::parse(&bytes), Err(DnsError::Truncated));
}

#[test]
fn message_with_long_label_cannot_be_encoded() {
    let long = DnsName { labels: vec![DnsLabel::new(vec![b'z'; 64])] };
    let mut message = full_message();
    message.additionals[0].name = long.clone();
    assert_eq!(message.to_bytes(), Err(DnsError::LabelTooLong));
    let mut message = full_message();
    message.questions[1].qname = long;
    assert_eq!(message.to_bytes(), Err(DnsError::LabelTooLong));
}

#[test]
fn message_nonzero_rcode_still_decodes() {
    let mut bytes = message_msg0_bytes();
    bytes[3] = 0x83;
    let message = DnsMessage::parse(&bytes).unwrap();
    assert_eq!(message.header.rcode, 3);
    assert_eq!(message.answers, msg0_message().answers);
}

#[test]
fn message_that_decodes_can_be_encoded() {
    let decoded = DnsMessage::parse(&message_msg0_bytes()).unwrap();
    let bytes = decoded.to_bytes().unwrap();
    // The name behind the pointer is written out in full.
    assert_eq!(bytes.len(), message_msg0_bytes().len() + 11);
    assert_eq!(DnsMessage::parse(&bytes), Ok(decoded));
}

#[test]
fn message_with_reserved_length_byte_is_invalid() {
    let mut bytes = message_msg0_bytes();
    bytes[12] = 0x47;
    assert_eq!(DnsMessage::parse(&bytes), Err(DnsError::InvalidField));
    let mut bytes = message_msg0_bytes();
    bytes[20] = 0x83;
    assert_eq!(DnsMessage::parse(&bytes), Err(DnsError::InvalidField));
}
