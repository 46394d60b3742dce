use dns_codec::cursor::Cursor;
use dns_codec::dns_components::dns_name::{DnsLabel, DnsName};
use dns_codec::dns_components::dns_rdata::{DnsRdata, Ipv4Addr};
use dns_codec::dns_components::dns_rr::DnsResourceRecord;
use dns_codec::error::DnsError;

fn rr_msg0_bytes() -> Vec<u8> {
    vec![
        0x05, 0xAA, 0xBB, 0xCC, 0xDD, 0xEE, 0, // name
        0x00, 0x01, // type
        0x00, 0x01, // class
        0x00, 0x00, 0x00, 0x00, // ttl
        0x00, 0x04, // rdlength
        0xAB, 0xBA, 0xDD, 0xFE, // rdata
    ]
}

fn rr_msg1_bytes() -> Vec<u8> {
    let mut msg0 = rr_msg0_bytes();
    msg0.push(0xFF);
    msg0
}

fn rr_msg2_bytes() -> Vec<u8> {
    let mut msg0 = rr_msg0_bytes();
    msg0.pop();
    msg0
}

fn rr_msg0_answer() -> DnsResourceRecord {
    DnsResourceRecord {
        name: DnsName { labels: vec![DnsLabel::new(vec![0xAA, 0xBb, 0xCC, 0xDD, 0xEE])] },
        rtype: 1,
        class: 1,
        ttl: 0,
        rdlength: 4,
        rdata_raw: vec![0xAB, 0xBA, 0xDD, 0xFE],
        rdata: DnsRdata::ARecord(Ipv4Addr::new(0xAB, 0xBA, 0xDD, 0xFE)),
    }
}

#[test]
fn dns_rr_parse_answer_ok() {
    let data = rr_msg0_bytes();
    let mut cursor = Cursor::new(&data[..]);
    let res = DnsResourceRecord::parse(&mut cursor);
    assert!(res.is_ok());
    let answer = res.unwrap();
    assert_eq!(answer, rr_msg0_answer());
}

#[test]
fn dns_rr_parse_answer_ok_longer() {
    let data = rr_msg1_bytes();
    let mut cursor = Cursor::new(&data[..]);
    let res = DnsResourceRecord::parse(&mut cursor);
    assert!(res.is_ok());
    let answer = res.unwrap();
    assert_eq!(answer, rr_msg0_answer());
}

#[test]
fn dns_rr_parse_answer_bad_short() {
    let data = rr_msg2_bytes();
    let mut cursor = Cursor::new(&data[..]);
    let res = DnsResourceRecord::parse(&mut cursor);
    assert!(res.is_err());
}

#[test]
fn rr_parse_stops_after_the_payload() {
    let data = rr_msg1_bytes();
    let mut cursor = Cursor::new(&data[..]);
    assert_eq!(DnsResourceRecord::parse(&mut cursor), Ok(rr_msg0_answer()));
    assert_eq!(cursor.position(), data.len() - 1);
}

#[test]
fn rr_truncated_at_each_byte() {
    let data = rr_msg0_bytes();
    for cut in 0..data.len() {
        let mut cursor = Cursor::new(&data[..cut]);
        assert_eq!(DnsResourceRecord::parse(&mut cursor), Err(DnsError::Truncated));
        assert_eq!(cursor.position(), 0);
    }
}

#[test]
fn rr_address_needs_exactly_four_bytes() {
    for rdlength in [0u8, 1, 3, 5, 16] {
        let mut data = vec![0x01, b'a', 0x00, 0x00, 0x01, 0x00, 0x01, 0, 0, 0, 0, 0x00, rdlength];
        data.extend(vec![0x7F; rdlength as usize]);
        let mut cursor = Cursor::new(&data[..]);
        assert_eq!(DnsResourceRecord::parse(&mut cursor), Err(DnsError::InvalidField));
        assert_eq!(cursor.position(), 0);
    }
}

#[test]
fn rr_unknown_types_are_unsupported() {
    for rtype in [0u8, 2, 4, 6, 15, 16, 28, 255] {
        let mut data = rr_msg0_bytes();
        data[8] = rtype;
        let mut cursor = Cursor::new(&data[..]);
        assert_eq!(DnsResourceRecord::parse(&mut cursor), Err(DnsError::Unsupported));
    }
    // The high byte of the type counts too.
    let mut data = rr_msg0_bytes();
    data[7] = 1;
    let mut cursor = Cursor::new(&data[..]);
    assert_eq!(DnsResourceRecord::parse(&mut cursor), Err(DnsError::Unsupported));
}

#[test]
fn rr_fields_are_big_endian() {
    let record = DnsResourceRecord {
        name: DnsName::from_string("a"),
        rtype: 1,
        class: 0x0203,
        ttl: 0x0A0B0C0D,
        rdlength: 4,
        rdata: DnsRdata::ARecord(Ipv4Addr::new(10, 0, 0, 1)),
        rdata_raw: vec![10, 0, 0, 1],
    };
    let bytes = record.to_bytes().unwrap();
    assert_eq!(
        bytes,
        vec![1, b'a', 0, 0x00, 0x01, 0x02, 0x03, 0x0A, 0x0B, 0x0C, 0x0D, 0x00, 0x04, 10, 0, 0, 1]
    );
    let mut cursor = Cursor::new(&bytes[..]);
    assert_eq!(DnsResourceRecord::parse(&mut cursor), Ok(record));
}

#[test]
fn rr_alias_inline_round_trip() {
    let alias = DnsName::from_string("target.example.org");
    let raw = alias.to_bytes().unwrap();
    let record = DnsResourceRecord {
        name: DnsName::from_string("www.example.org"),
        rtype: 5,
        class: 1,
        ttl: 300,
        rdlength: raw.len() as u16,
        rdata: DnsRdata::CnameRecord(alias),
        rdata_raw: raw,
    };
    let bytes = record.to_bytes().unwrap();
    let mut cursor = Cursor::new(&bytes[..]);
    assert_eq!(DnsResourceRecord::parse(&mut cursor), Ok(record));
    assert_eq!(cursor.position(), bytes.len());
}

#[test]
fn rr_alias_pointer_ends_at_declared_length() {
    // "a" at offset 0, then a record named by a pointer whose two-byte
    // payload is a pointer to offset 0 as well.
    let mut data = vec![0x01, b'a', 0x00];
    data.extend([0xC0, 0x00, 0x00, 0x05, 0x00, 0x01, 0, 0, 0, 9, 0x00, 0x02, 0xC0, 0x00]);
    data.extend([0xEE, 0xEE]);
    let mut cursor = Cursor::new(&data[..]);
    cursor.set_position(3);
    let record = DnsResourceRecord::parse(&mut cursor).unwrap();
    assert_eq!(record.name, DnsName::from_string("a"));
    assert_eq!(record.rdata, DnsRdata::CnameRecord(DnsName::from_string("a")));
    assert_eq!(record.rdata_raw, vec![0xC0, 0x00]);
    assert_eq!(record.rdlength, 2);
    assert_eq!(cursor.position(), data.len() - 2);
    // The payload is written back as it was received.
    assert_eq!(&record.to_bytes().unwrap()[3..], &data[5..data.len() - 2]);
}

#[test]
fn rr_alias_longer_than_its_name_ends_at_declared_length() {
    let mut data = vec![0x01, b'a', 0x00, 0x00, 0x05, 0x00, 0x01, 0, 0, 0, 0, 0x00, 0x05];
    data.extend([0x01, b'b', 0x00, 0x77, 0x77]);
    data.push(0x42);
    let mut cursor = Cursor::new(&data[..]);
    let record = DnsResourceRecord::parse(&mut cursor).unwrap();
    assert_eq!(record.rdata, DnsRdata::CnameRecord(DnsName::from_string("b")));
    assert_eq!(cursor.position(), data.len() - 1);
}

#[test]
fn rr_alias_pointer_loop_is_reported() {
    let mut data = vec![0x01, b'a', 0x00, 0x00, 0x05, 0x00, 0x01, 0, 0, 0, 0, 0x00, 0x02];
    data.extend([0xC0, 13]);
    let mut cursor = Cursor::new(&data[..]);
    assert_eq!(DnsResourceRecord::parse(&mut cursor), Err(DnsError::PointerLoop));
    assert_eq!(cursor.position(), 0);
}

#[test]
fn rr_with_long_label_cannot_be_encoded() {
    let mut record = rr_msg0_answer();
    record.name = DnsName { labels: vec![DnsLabel::new(vec![b'r'; 64])] };
    assert_eq!(record.to_bytes(), Err(DnsError::LabelTooLong));
}
