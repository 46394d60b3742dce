use dns_codec::cursor::{push_all, push_u16, push_u32, Cursor};
use dns_codec::error::DnsError;

#[test]
fn cursor_reads_big_endian_integers() {
    let data = [0x12, 0x34, 0x56, 0x78, 0x9A, 0xBC, 0xDE];
    let mut cursor = Cursor::new(&data);
    assert_eq!(cursor.position(), 0);
    assert_eq!(cursor.remaining(), 7);
    assert_eq!(cursor.read_u8(), Ok(0x12));
    assert_eq!(cursor.read_u16(), Ok(0x3456));
    assert_eq!(cursor.read_u32(), Ok(0x789ABCDE));
    assert_eq!(cursor.position(), 7);
    assert_eq!(cursor.remaining(), 0);
}

#[test]
fn cursor_failed_read_does_not_move() {
    let data = [0xFF, 0xEE, 0xDD];
    let mut cursor = Cursor::new(&data);
    assert_eq!(cursor.read_u32(), Err(DnsError::Truncated));
    assert_eq!(cursor.position(), 0);
    assert_eq!(cursor.read_bytes(4), Err(DnsError::Truncated));
    assert_eq!(cursor.position(), 0);
    cursor.set_position(2);
    assert_eq!(cursor.read_u16(), Err(DnsError::Truncated));
    assert_eq!(cursor.position(), 2);
    assert_eq!(cursor.read_u8(), Ok(0xDD));
    assert_eq!(cursor.read_u8(), Err(DnsError::Truncated));
    assert_eq!(cursor.position(), 3);
}

#[test]
fn cursor_reads_byte_runs() {
    let data = [1, 2, 3, 4, 5];
    let mut cursor = Cursor::new(&data);
    assert_eq!(cursor.read_bytes(0), Ok(vec![]));
    assert_eq!(cursor.read_bytes(2), Ok(vec![1, 2]));
    assert_eq!(cursor.read_bytes(3), Ok(vec![3, 4, 5]));
    assert_eq!(cursor.read_bytes(0), Ok(vec![]));
    assert_eq!(cursor.read_bytes(1), Err(DnsError::Truncated));
}

#[test]
fn cursor_beyond_the_end_reads_nothing() {
    let data = [1, 2];
    let mut cursor = Cursor::new(&data);
    cursor.set_position(40);
    assert_eq!(cursor.remaining(), 0);
    assert_eq!(cursor.read_u8(), Err(DnsError::Truncated));
    assert_eq!(cursor.read_bytes(0), Ok(vec![]));
    assert_eq!(cursor.position(), 40);
}

#[test]
fn integers_are_written_big_endian() {
    let mut out = vec![0xAA];
    push_u16(&mut out, 0x0102);
    push_u32(&mut out, 0x0A0B0C0D);
    push_u16(&mut out, 0xFFFF);
    push_u32(&mut out, 0);
    push_all(&mut out, &[7, 8]);
    assert_eq!(out, vec![0xAA, 1, 2, 0x0A, 0x0B, 0x0C, 0x0D, 0xFF, 0xFF, 0, 0, 0, 0, 7, 8]);
    let mut cursor = Cursor::new(&out[1..]);
    assert_eq!(cursor.read_u16(), Ok(0x0102));
    assert_eq!(cursor.read_u32(), Ok(0x0A0B0C0D));
}

#[test]
fn errors_have_messages() {
    let all = [
        DnsError::Truncated,
        DnsError::InvalidField,
        DnsError::Unsupported,
        DnsError::PointerLoop,
        DnsError::LabelTooLong,
    ];
    for (i, a) in all.iter().enumerate() {
        assert!(!a.message().is_empty());
        for b in &all[i + 1..] {
            assert_ne!(a.message(), b.message());
        }
    }
    assert_eq!(DnsError::LabelTooLong.message(), "label is longer than 63 bytes");
}
