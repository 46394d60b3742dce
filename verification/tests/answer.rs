use dns_codec::cursor::Cursor;
use dns_codec::dns_components::dns_answer::{DnsAnswer, DnsAnswerData};
use dns_codec::dns_components::dns_name::{DnsLabel, DnsName};
use dns_codec::dns_components::dns_rr::DnsResourceRecord;
use dns_codec::error::DnsError;

fn answer_msg0_bytes() -> Vec<u8> {
    vec![
        0x05, 0xAA, 0xBB, 0xCC, 0xDD, 0xEE, 0, // name
        0x00, 0x01, // type
        0x00, 0x01, // class
        0x00, 0x00, 0x00, 0x00, // ttl
        0x00, 0x03, // rdlength
        0xAB, 0xBA, 0xDD, // rdata
    ]
}

fn answer_msg1_bytes() -> Vec<u8> {
    let mut msg0 = answer_msg0_bytes();
    msg0.push(0xFF);
    msg0
}

fn answer_msg2_bytes() -> Vec<u8> {
    let mut msg0 = answer_msg0_bytes();
    msg0.pop();
    msg0
}

fn answer_msg0_answer() -> DnsAnswer {
    DnsAnswer {
        name: DnsName { labels: vec![DnsLabel::new(vec![0xAA, 0xBb, 0xCC, 0xDD, 0xEE])] },
        rtype: 1,
        class: 1,
        ttl: 0,
        rdlength: 3,
        rdata_raw: vec![0xAB, 0xBA, 0xDD],
        rdata: DnsAnswerData::IpAddr(vec![0xAB, 0xBA, 0xDD]),
    }
}

#[test]
fn dns_answer_parse_answer_ok() {
    let data = answer_msg0_bytes();
    let mut cursor = Cursor::new(&data[..]);
    let res = DnsAnswer::parse(&mut cursor);
    assert!(res.is_ok());
    let answer = res.unwrap();
    assert_eq!(answer, answer_msg0_answer());
}

#[test]
fn dns_answer_parse_answer_ok_longer() {
    let data = answer_msg1_bytes();
    let mut cursor = Cursor::new(&data[..]);
    let res = DnsAnswer::parse(&mut cursor);
    assert!(res.is_ok());
    let answer = res.unwrap();
    assert_eq!(answer, answer_msg0_answer());
}

#[test]
fn dns_answer_parse_answer_bad_short() {
    let data = answer_msg2_bytes();
    let mut cursor = Cursor::new(&data[..]);
    let res = DnsAnswer::parse(&mut cursor);
    assert!(res.is_err());
}

#[test]
fn address_of_three_bytes_reads_but_is_no_record() {
    let data = answer_msg0_bytes();
    let mut cursor = Cursor::new(&data[..]);
    let answer = DnsAnswer::parse(&mut cursor).unwrap();
    assert_eq!(answer.name.labels, vec![DnsLabel::new(vec![0xAA, 0xBB, 0xCC, 0xDD, 0xEE])]);
    assert_eq!((answer.rtype, answer.class, answer.ttl, answer.rdlength), (1, 1, 0, 3));
    assert_eq!(cursor.position(), data.len());
    assert_eq!(DnsResourceRecord::from_answer(answer), Err(DnsError::InvalidField));

    let mut cursor = Cursor::new(&data[..]);
    assert_eq!(DnsResourceRecord::parse(&mut cursor), Err(DnsError::InvalidField));
    assert_eq!(cursor.position(), 0);
}

#[test]
fn answer_to_bytes_writes_the_payload_as_received() {
    let answer = answer_msg0_answer();
    assert_eq!(answer.to_bytes().unwrap(), answer_msg0_bytes());
}

#[test]
fn answer_of_unknown_type_is_unsupported() {
    let mut data = answer_msg0_bytes();
    data[8] = 2;
    let mut cursor = Cursor::new(&data[..]);
    assert_eq!(DnsAnswer::parse(&mut cursor), Err(DnsError::Unsupported));
    assert_eq!(cursor.position(), 0);
}

#[test]
fn answer_alias_payload_is_a_name() {
    let mut data = vec![0x01, b'a', 0x00];
    data.extend([0x00, 0x05, 0x00, 0x01, 0x00, 0x00, 0x00, 0x3C, 0x00, 0x04]);
    data.extend([0x01, b'b', 0xC0, 0x00]);
    let mut cursor = Cursor::new(&data[..]);
    let answer = DnsAnswer::parse(&mut cursor).unwrap();
    assert_eq!(answer.rdata, DnsAnswerData::DnsName(DnsName::from_string("b.a")));
    assert_eq!(answer.rdata_raw, vec![0x01, b'b', 0xC0, 0x00]);
    assert_eq!(answer.ttl, 60);
    assert_eq!(cursor.position(), data.len());
}
