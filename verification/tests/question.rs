use dns_codec::cursor::Cursor;
use dns_codec::dns_components::dns_name::{DnsLabel, DnsName};
use dns_codec::dns_components::dns_question::DnsQuestion;
use dns_codec::error::DnsError;

fn question_msg0_bytes() -> Vec<u8> {
    vec![
        0xAA, 0xAA, 0x01, 0x00, 0x00, 0x01, 0x00, 0x00, 0x00, 0x00, 0x00, 0x00, 0x07, 0x65, 0x78,
        0x61, 0x6d, 0x70, 0x6c, 0x65, 0x03, 0x63, 0x6f, 0x6d, 0x00, 0x00, 0x01, 0x00, 0x01,
    ]
}

fn question_msg0_name() -> DnsName {
    let label1 = vec![0x65, 0x78, 0x61, 0x6d, 0x70, 0x6c, 0x65];
    let label2 = vec![0x63, 0x6f, 0x6d];
    let labels = vec![DnsLabel::new(label1), DnsLabel::new(label2)];
    DnsName { labels }
}

fn msg0_question() -> DnsQuestion {
    DnsQuestion { qname: question_msg0_name(), qtype: 1, qclass: 1 }
}

#[test]
fn parse_question_no_ptr_ok() {
    let msg = question_msg0_bytes();
    let mut cursor = Cursor::new(&msg[..]);
    cursor.set_position(12);

    let res = DnsQuestion::parse(&mut cursor);
    assert!(res.is_ok());

    let question = res.unwrap();
    assert_eq!(question, msg0_question());
}

#[test]
fn question_query_asks_for_an_internet_address() {
    let question = DnsQuestion::query("example.com");
    assert_eq!(question, msg0_question());
    assert_eq!(question.to_bytes().unwrap(), Vec::from(&question_msg0_bytes()[12..]));
}

#[test]
fn question_codes_are_big_endian() {
    let question = DnsQuestion { qname: DnsName::from_string("a"), qtype: 0x0105, qclass: 0xFF02 };
    let bytes = question.to_bytes().unwrap();
    assert_eq!(bytes, vec![1, b'a', 0, 0x01, 0x05, 0xFF, 0x02]);
    let mut cursor = Cursor::new(&bytes[..]);
    assert_eq!(DnsQuestion::parse(&mut cursor), Ok(question));
    assert_eq!(cursor.position(), 7);
}

#[test]
fn question_truncated_at_each_byte() {
    let bytes = msg0_question().to_bytes().unwrap();
    for cut in 0..bytes.len() {
        let mut cursor = Cursor::new(&bytes[..cut]);
        assert_eq!(DnsQuestion::parse(&mut cursor), Err(DnsError::Truncated));
        assert_eq!(cursor.position(), 0);
    }
}

#[test]
fn question_with_long_label_cannot_be_encoded() {
    let question = DnsQuestion {
        qname: DnsName { labels: vec![DnsLabel::new(vec![b'q'; 64])] },
        qtype: 1,
        qclass: 1,
    };
    assert_eq!(question.to_bytes(), Err(DnsError::LabelTooLong));
}
