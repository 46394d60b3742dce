//! The fixed 12-byte header of a DNS message.
//!
//! | Byte  | Bits 7..0                               |
//! |-------|-----------------------------------------|
//! | 0-1   | id                                      |
//! | 2     | qr(1) opcode(4) aa(1) tc(1) rd(1)       |
//! | 3     | ra(1) z(3) rcode(4)                     |
//! | 4-5   | qdcount                                 |
//! | 6-7   | ancount                                 |
//! | 8-9   | nscount                                 |
//! | 10-11 | arcount                                 |

use vstd::prelude::*;
use crate::cursor::{u16_at, u16_bytes, Cursor};
use crate::error::DnsError;

verus! {

/// The length of a header on the wire.
pub const HEADER_LEN: usize = 12;

/// The header of a DNS message.
#[derive(PartialEq, Eq, Debug, Clone, Copy, Hash, Structural)]
pub struct DnsHeader {
    pub id: u16,
    pub qr: bool,
    /// Four bits on the wire.
    pub opcode: u8,
    pub aa: bool,
    pub tc: bool,
    pub rd: bool,
    pub ra: bool,
    /// Three reserved bits on the wire; zero in every header that decodes.
    pub z: u8,
    /// Four bits on the wire.
    pub rcode: u8,
    /// The number of entries in the question section.
    pub qdcount: u16,
    /// The number of resource records in the answer section.
    pub ancount: u16,
    /// The number of resource records in the authority section.
    pub nscount: u16,
    /// The number of resource records in the additional section.
    pub arcount: u16,
}

/// The byte that holds `qr`, `opcode`, `aa`, `tc` and `rd`.
///
/// Bits of `opcode` beyond its four are not masked: they fall on `qr` or are
/// shifted out.
pub open spec fn flags_high(h: DnsHeader) -> u8 {
    (if h.qr { 0x80u8 } else { 0u8 }) | (h.opcode << 3u8) | (if h.aa { 4u8 } else { 0u8 }) | (if h.tc {
        2u8
    } else {
        0u8
    }) | (if h.rd { 1u8 } else { 0u8 })
}

/// The byte that holds `ra`, `z` and `rcode`.
///
/// Bits of `z` and `rcode` beyond their three and four are not masked.
pub open spec fn flags_low(h: DnsHeader) -> u8 {
    (if h.ra { 0x80u8 } else { 0u8 }) | (h.z << 4u8) | h.rcode
}

/// The 12 bytes of a header.
pub open spec fn header_bytes(h: DnsHeader) -> Seq<u8> {
    u16_bytes(h.id) + seq![flags_high(h), flags_low(h)] + u16_bytes(h.qdcount) + u16_bytes(
        h.ancount,
    ) + u16_bytes(h.nscount) + u16_bytes(h.arcount)
}

/// The three reserved bits of the second flag byte.
pub open spec fn reserved_bits(b: u8) -> u8 {
    (b & 0x7Fu8) >> 4u8
}

/// The header that the 12 bytes at `pos` spell out.
pub open spec fn header_fields(data: Seq<u8>, pos: int) -> DnsHeader {
    let high = data[pos + 2];
    let low = data[pos + 3];
    DnsHeader {
        id: u16_at(data, pos),
        qr: high & 0x80u8 != 0,
        opcode: (high & 0x78u8) >> 3u8,
        aa: high & 4u8 != 0,
        tc: high & 2u8 != 0,
        rd: high & 1u8 != 0,
        ra: low & 0x80u8 != 0,
        z: reserved_bits(low),
        rcode: low & 0x0Fu8,
        qdcount: u16_at(data, pos + 4),
        ancount: u16_at(data, pos + 6),
        nscount: u16_at(data, pos + 8),
        arcount: u16_at(data, pos + 10),
    }
}

/// What decoding a header at `pos` yields: the header and the position after
/// it; `Truncated` if fewer than 12 bytes stand there; `InvalidField` if the
/// reserved bits are not all zero.
pub open spec fn header_at(data: Seq<u8>, pos: int) -> Result<(DnsHeader, int), DnsError> {
    if pos < 0 || pos + HEADER_LEN > data.len() {
        Err(DnsError::Truncated)
    } else if reserved_bits(data[pos + 3]) != 0 {
        Err(DnsError::InvalidField)
    } else {
        Ok((header_fields(data, pos), pos + HEADER_LEN))
    }
}

/// Whether each field of a header fits the bits that the wire has for it, and
/// the reserved bits are zero.
pub open spec fn valid_header(h: DnsHeader) -> bool {
    h.opcode < 16 && h.z == 0 && h.rcode < 16
}

/// The header of a query: no flag set but `tc` and `rd` as given, no record
/// announced.
pub open spec fn query_header(id: u16, opcode: u8, truncate: bool, recurse: bool, qdcount: u16)
    -> DnsHeader {
    DnsHeader {
        id,
        qr: false,
        opcode,
        aa: false,
        tc: truncate,
        rd: recurse,
        ra: false,
        z: 0,
        rcode: 0,
        qdcount,
        ancount: 0,
        nscount: 0,
        arcount: 0,
    }
}

impl DnsHeader {
    /// Decodes the header at the cursor and moves the cursor past it. On
    /// failure the cursor stays where it was.
    pub fn parse(cursor: &mut Cursor) -> (r: Result<Self, DnsError>)
        ensures
            final(cursor).data@ == old(cursor).data@,
            match r {
                Ok(h) => header_at(old(cursor).data@, old(cursor).pos as int) == Ok::<
                    (DnsHeader, int),
                    DnsError,
                >((h, final(cursor).pos as int)),
                Err(e) => {
                    &&& header_at(old(cursor).data@, old(cursor).pos as int) == Err::<
                        (DnsHeader, int),
                        DnsError,
                    >(e)
                    &&& final(cursor).pos == old(cursor).pos
                },
            },
    {
        if cursor.remaining() < HEADER_LEN {
            return Err(DnsError::Truncated);
        }
        let data = cursor.data;
        let at = cursor.pos;
        // ID is the first two bytes, big-endian.
        let id: u16 = (data[at] as u16) * 256 + data[at + 1] as u16;
        let high = data[at + 2];
        let low = data[at + 3];
        // QR is the first bit of the third byte, OPCODE the four bits after
        // it, then AA, TC and RD.
        let qr: bool = high & 0x80 != 0;
        let opcode: u8 = (high & 0x78) >> 3;
        let aa: bool = high & 4 != 0;
        let tc: bool = high & 2 != 0;
        let rd: bool = high & 1 != 0;
        // RA is the first bit of the fourth byte, Z the three bits after it.
        let ra: bool = low & 0x80 != 0;
        let z: u8 = (low & 0x7F) >> 4;
        if z != 0 {
            return Err(DnsError::InvalidField);
        }
        let rcode: u8 = low & 0x0F;
        let qdcount: u16 = (data[at + 4] as u16) * 256 + data[at + 5] as u16;
        let ancount: u16 = (data[at + 6] as u16) * 256 + data[at + 7] as u16;
        let nscount: u16 = (data[at + 8] as u16) * 256 + data[at + 9] as u16;
        let arcount: u16 = (data[at + 10] as u16) * 256 + data[at + 11] as u16;
        cursor.pos = at + HEADER_LEN;
        Ok(
            Self {
                id,
                qr,
                opcode,
                aa,
                tc,
                rd,
                ra,
                z,
                rcode,
                qdcount,
                ancount,
                nscount,
                arcount,
            },
        )
    }

    /// The header of a query: recursion desired, `tc` as given, every other
    /// flag and code zero, `qdcount` questions and no records.
    pub fn query(id: u16, qdcount: u16, tc: bool) -> (h: Self)
        ensures
            h == query_header(id, 0, tc, true, qdcount),
            valid_header(h),
    {
        Self {
            id,
            qr: false,
            opcode: 0,
            aa: false,
            tc,
            rd: true,
            ra: false,
            z: 0,
            rcode: 0,
            qdcount,
            ancount: 0,
            nscount: 0,
            arcount: 0,
        }
    }

    /// The 12 bytes of the header. Nothing is validated.
    pub fn to_bytes(&self) -> (bytes: [u8; 12])
        ensures
            bytes@ == header_bytes(*self),
    {
        let mut header: [u8; 12] = [0u8; 12];
        header[0] = (self.id / 256) as u8;
        header[1] = (self.id % 256) as u8;
        let qr: u8 = if self.qr { 0x80 } else { 0 };
        let aa: u8 = if self.aa { 4 } else { 0 };
        let tc: u8 = if self.tc { 2 } else { 0 };
        let rd: u8 = if self.rd { 1 } else { 0 };
        header[2] = qr | (self.opcode << 3) | aa | tc | rd;
        let ra: u8 = if self.ra { 0x80 } else { 0 };
        header[3] = ra | (self.z << 4) | self.rcode;
        header[4] = (self.qdcount / 256) as u8;
        header[5] = (self.qdcount % 256) as u8;
        header[6] = (self.ancount / 256) as u8;
        header[7] = (self.ancount % 256) as u8;
        header[8] = (self.nscount / 256) as u8;
        header[9] = (self.nscount % 256) as u8;
        header[10] = (self.arcount / 256) as u8;
        header[11] = (self.arcount % 256) as u8;
        assert(header@ =~= header_bytes(*self));
        header
    }
}

/// The two flag bytes of a header whose fields fit their bits spell out the
/// same fields again.
proof fn lemma_flags_round_trip(h: DnsHeader)
    requires
        valid_header(h),
    ensures
        (flags_high(h) & 0x80u8 != 0) == h.qr,
        (flags_high(h) & 0x78u8) >> 3u8 == h.opcode,
        (flags_high(h) & 4u8 != 0) == h.aa,
        (flags_high(h) & 2u8 != 0) == h.tc,
        (flags_high(h) & 1u8 != 0) == h.rd,
        (flags_low(h) & 0x80u8 != 0) == h.ra,
        reserved_bits(flags_low(h)) == 0,
        flags_low(h) & 0x0Fu8 == h.rcode,
{
    let qr: u8 = if h.qr { 0x80u8 } else { 0u8 };
    let aa: u8 = if h.aa { 4u8 } else { 0u8 };
    let tc: u8 = if h.tc { 2u8 } else { 0u8 };
    let rd: u8 = if h.rd { 1u8 } else { 0u8 };
    let ra: u8 = if h.ra { 0x80u8 } else { 0u8 };
    let op = h.opcode;
    let rc = h.rcode;
    let z = h.z;
    let high = qr | (op << 3u8) | aa | tc | rd;
    let low = ra | (z << 4u8) | rc;
    assert(high == flags_high(h));
    assert(low == flags_low(h));
    assert({
        &&& (high & 0x80u8 != 0) == (qr == 0x80u8)
        &&& (high & 0x78u8) >> 3u8 == op
        &&& (high & 4u8 != 0) == (aa == 4u8)
        &&& (high & 2u8 != 0) == (tc == 2u8)
        &&& (high & 1u8 != 0) == (rd == 1u8)
    }) by (bit_vector)
        requires
            high == qr | (op << 3u8) | aa | tc | rd,
            op < 16u8,
            qr == 0x80u8 || qr == 0u8,
            aa == 4u8 || aa == 0u8,
            tc == 2u8 || tc == 0u8,
            rd == 1u8 || rd == 0u8,
    ;
    assert({
        &&& (low & 0x80u8 != 0) == (ra == 0x80u8)
        &&& (low & 0x7Fu8) >> 4u8 == 0u8
        &&& low & 0x0Fu8 == rc
    }) by (bit_vector)
        requires
            low == ra | (z << 4u8) | rc,
            z == 0u8,
            rc < 16u8,
            ra == 0x80u8 || ra == 0u8,
    ;
}

/// A header whose fields fit their bits, standing in a buffer in its wire
/// form, decodes to itself, and the decode ends right after its 12 bytes.
pub proof fn lemma_header_inline(data: Seq<u8>, pos: int, h: DnsHeader)
    requires
        valid_header(h),
        0 <= pos,
        pos + HEADER_LEN <= data.len(),
        data.subrange(pos, pos + HEADER_LEN) == header_bytes(h),
    ensures
        header_at(data, pos) == Ok::<(DnsHeader, int), DnsError>((h, pos + HEADER_LEN)),
{
    let wire = header_bytes(h);
    let window = data.subrange(pos, pos + HEADER_LEN);
    assert forall|i: int| 0 <= i < 12 implies data[pos + i] == wire[i] by {
        assert(data[pos + i] == window[i]);
    }
    assert(wire[0] == (h.id / 256) as u8 && wire[1] == (h.id % 256) as u8);
    assert(wire[2] == flags_high(h) && wire[3] == flags_low(h));
    assert(wire[4] == (h.qdcount / 256) as u8 && wire[5] == (h.qdcount % 256) as u8);
    assert(wire[6] == (h.ancount / 256) as u8 && wire[7] == (h.ancount % 256) as u8);
    assert(wire[8] == (h.nscount / 256) as u8 && wire[9] == (h.nscount % 256) as u8);
    assert(wire[10] == (h.arcount / 256) as u8 && wire[11] == (h.arcount % 256) as u8);
    assert(data[pos + 0] == wire[0]);
    assert(data[pos + 1] == wire[1]);
    assert(data[pos + 2] == wire[2]);
    assert(data[pos + 3] == wire[3]);
    assert(data[pos + 4] == wire[4]);
    assert(data[pos + 5] == wire[5]);
    assert(data[pos + 6] == wire[6]);
    assert(data[pos + 7] == wire[7]);
    assert(data[pos + 8] == wire[8]);
    assert(data[pos + 9] == wire[9]);
    assert(data[pos + 10] == wire[10]);
    assert(data[pos + 11] == wire[11]);
    lemma_flags_round_trip(h);
}

/// Decoding the 12 bytes of a header whose fields fit their bits gives the
/// header back.
pub proof fn lemma_header_round_trip(h: DnsHeader)
    requires
        valid_header(h),
    ensures
        header_at(header_bytes(h), 0) == Ok::<(DnsHeader, int), DnsError>((h, 12)),
{
    let wire = header_bytes(h);
    assert(wire.subrange(0, 12) == wire);
    lemma_header_inline(wire, 0, h);
}

/// Every header that decodes has fields that fit their bits.
pub proof fn lemma_header_decoded_is_valid(data: Seq<u8>, pos: int)
    requires
        header_at(data, pos) is Ok,
    ensures
        valid_header(header_at(data, pos)->Ok_0.0),
{
    let high = data[pos + 2];
    let low = data[pos + 3];
    assert((high & 0x78u8) >> 3u8 < 16u8) by (bit_vector);
    assert(low & 0x0Fu8 < 16u8) by (bit_vector);
}

/// Encoding a header that was decoded gives back the 12 bytes that it was
/// decoded from.
pub proof fn lemma_header_reencodes(data: Seq<u8>, pos: int)
    requires
        header_at(data, pos) is Ok,
    ensures
        header_bytes(header_at(data, pos)->Ok_0.0) == data.subrange(pos, pos + HEADER_LEN),
{
    let h = header_at(data, pos)->Ok_0.0;
    let high = data[pos + 2];
    let low = data[pos + 3];
    let qr: u8 = if h.qr { 0x80u8 } else { 0u8 };
    let aa: u8 = if h.aa { 4u8 } else { 0u8 };
    let tc: u8 = if h.tc { 2u8 } else { 0u8 };
    let rd: u8 = if h.rd { 1u8 } else { 0u8 };
    let ra: u8 = if h.ra { 0x80u8 } else { 0u8 };
    let op = h.opcode;
    let z = h.z;
    let rc = h.rcode;
    assert(qr | (op << 3u8) | aa | tc | rd == high) by (bit_vector)
        requires
            qr == (if high & 0x80u8 != 0 { 0x80u8 } else { 0u8 }),
            op == (high & 0x78u8) >> 3u8,
            aa == (if high & 4u8 != 0 { 4u8 } else { 0u8 }),
            tc == (if high & 2u8 != 0 { 2u8 } else { 0u8 }),
            rd == (if high & 1u8 != 0 { 1u8 } else { 0u8 }),
    ;
    assert(ra | (z << 4u8) | rc == low) by (bit_vector)
        requires
            ra == (if low & 0x80u8 != 0 { 0x80u8 } else { 0u8 }),
            z == (low & 0x7Fu8) >> 4u8,
            z == 0u8,
            rc == low & 0x0Fu8,
    ;
    assert(flags_high(h) == high);
    assert(flags_low(h) == low);
    let wire = header_bytes(h);
    let window = data.subrange(pos, pos + HEADER_LEN);
    assert(wire.len() == 12);
    assert forall|i: int| 0 <= i < 12 implies wire[i] == window[i] by {
        assert(window[i] == data[pos + i]);
        lemma_u16_bytes_of_pair(data[pos], data[pos + 1]);
        lemma_u16_bytes_of_pair(data[pos + 4], data[pos + 5]);
        lemma_u16_bytes_of_pair(data[pos + 6], data[pos + 7]);
        lemma_u16_bytes_of_pair(data[pos + 8], data[pos + 9]);
        lemma_u16_bytes_of_pair(data[pos + 10], data[pos + 11]);
    }
    assert(wire =~= window);
}

/// The big-endian bytes of the 16-bit value of two bytes are those bytes.
proof fn lemma_u16_bytes_of_pair(hi: u8, lo: u8)
    ensures
        u16_bytes((hi as int * 256 + lo as int) as u16) == seq![hi, lo],
{
    let x = (hi as int * 256 + lo as int) as u16;
    assert(x == hi as int * 256 + lo as int);
    assert(x / 256 == hi as int);
    assert(x % 256 == lo as int);
    assert(u16_bytes(x) =~= seq![hi, lo]);
}

} // verus!
