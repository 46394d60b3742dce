//! Resource records as they stand on the wire, before an address payload is
//! held to its four bytes.

use vstd::prelude::*;
use crate::cursor::{
    bytes_at,
    push_all,
    push_u16,
    push_u32,
    u16_at,
    u16_bytes,
    u32_at,
    u32_bytes,
    Cursor,
};
use crate::dns_components::dns_name::{
    encodable,
    name_at,
    name_bytes,
    valid_name,
    DnsName,
    MAX_POINTER_HOPS,
};
use crate::dns_components::dns_question::{TYPE_ADDRESS, TYPE_ALIAS};
use crate::error::DnsError;

verus! {

/// The payload of a record of which only the type has been looked at.
#[derive(PartialEq, Eq, Debug, Clone, Hash)]
pub enum DnsAnswerData {
    /// The payload bytes of an address record, however many there are.
    IpAddr(Vec<u8>),
    /// The name that the payload of an alias record decodes to.
    DnsName(DnsName),
}

/// Such a payload as a mathematical value.
pub enum AnswerDataView {
    IpAddr(Seq<u8>),
    DnsName(Seq<Seq<u8>>),
}

impl View for DnsAnswerData {
    type V = AnswerDataView;

    open spec fn view(&self) -> AnswerDataView {
        match self {
            DnsAnswerData::IpAddr(raw) => AnswerDataView::IpAddr(raw@),
            DnsAnswerData::DnsName(name) => AnswerDataView::DnsName(name@),
        }
    }
}

/// A resource record with its payload read by type, but with an address
/// payload of any length.
#[derive(PartialEq, Eq, Debug, Clone, Hash)]
pub struct DnsAnswer {
    pub name: DnsName,
    pub rtype: u16,
    pub class: u16,
    pub ttl: u32,
    pub rdlength: u16,
    pub rdata: DnsAnswerData,
    pub rdata_raw: Vec<u8>,
}

/// Such a record as a mathematical value.
pub struct AnswerView {
    pub name: Seq<Seq<u8>>,
    pub rtype: u16,
    pub class: u16,
    pub ttl: u32,
    pub rdlength: u16,
    pub rdata: AnswerDataView,
    pub rdata_raw: Seq<u8>,
}

impl View for DnsAnswer {
    type V = AnswerView;

    open spec fn view(&self) -> AnswerView {
        AnswerView {
            name: self.name@,
            rtype: self.rtype,
            class: self.class,
            ttl: self.ttl,
            rdlength: self.rdlength,
            rdata: self.rdata@,
            rdata_raw: self.rdata_raw@,
        }
    }
}

/// The number of bytes between a record's name and its payload: type, class,
/// ttl and rdlength.
pub const FIXED_FIELDS_LEN: usize = 10;

/// What the payload that starts at `start` stands for in a record of type
/// `rtype`.
///
/// An alias payload is a name, decoded in the whole buffer so that its
/// pointers can be followed; how many bytes that decode consumes is not held
/// against the payload's length.
pub open spec fn answer_data_at(data: Seq<u8>, start: int, rtype: u16, rdlength: u16) -> Result<
    AnswerDataView,
    DnsError,
> {
    if rtype == TYPE_ADDRESS {
        Ok(AnswerDataView::IpAddr(bytes_at(data, start, rdlength as nat)))
    } else if rtype == TYPE_ALIAS {
        match name_at(data, start, MAX_POINTER_HOPS as nat) {
            Ok((labels, _)) => Ok(AnswerDataView::DnsName(labels)),
            Err(e) => Err(e),
        }
    } else {
        Err(DnsError::Unsupported)
    }
}

/// What decoding a record at `pos` yields: the name, type, class, ttl and
/// rdlength, then exactly rdlength payload bytes, then the payload read by
/// type. The position after the record is the one after its payload bytes.
pub open spec fn answer_at(data: Seq<u8>, pos: int) -> Result<(AnswerView, int), DnsError> {
    match name_at(data, pos, MAX_POINTER_HOPS as nat) {
        Err(e) => Err(e),
        Ok((name, after)) => {
            let start = after + FIXED_FIELDS_LEN;
            if start > data.len() {
                Err(DnsError::Truncated)
            } else {
                let rtype = u16_at(data, after);
                let rdlength = u16_at(data, after + 8);
                if start + rdlength > data.len() {
                    Err(DnsError::Truncated)
                } else {
                    match answer_data_at(data, start, rtype, rdlength) {
                        Err(e) => Err(e),
                        Ok(rdata) => Ok(
                            (
                                AnswerView {
                                    name,
                                    rtype,
                                    class: u16_at(data, after + 2),
                                    ttl: u32_at(data, after + 4),
                                    rdlength,
                                    rdata,
                                    rdata_raw: bytes_at(data, start, rdlength as nat),
                                },
                                start + rdlength,
                            ),
                        ),
                    }
                }
            }
        },
    }
}

/// The wire form of a record: the name, the fixed fields, then the payload
/// bytes as they were received.
pub open spec fn record_bytes(
    name: Seq<Seq<u8>>,
    rtype: u16,
    class: u16,
    ttl: u32,
    rdlength: u16,
    rdata_raw: Seq<u8>,
) -> Seq<u8> {
    name_bytes(name) + u16_bytes(rtype) + u16_bytes(class) + u32_bytes(ttl) + u16_bytes(rdlength)
        + rdata_raw
}

/// Appends the wire form of a record to `out`, or leaves `out` as it was if
/// the name cannot be encoded.
pub fn push_record(
    out: &mut Vec<u8>,
    name: &DnsName,
    rtype: u16,
    class: u16,
    ttl: u32,
    rdlength: u16,
    rdata_raw: &Vec<u8>,
) -> (r: Result<(), DnsError>)
    ensures
        match r {
            Ok(_) => {
                &&& encodable(name@)
                &&& final(out)@ == old(out)@ + record_bytes(
                    name@,
                    rtype,
                    class,
                    ttl,
                    rdlength,
                    rdata_raw@,
                )
            },
            Err(e) => !encodable(name@) && e == DnsError::LabelTooLong && final(out)@ == old(out)@,
        },
{
    match name.to_bytes() {
        Ok(bytes) => push_all(out, bytes.as_slice()),
        Err(e) => {
            return Err(e);
        },
    }
    push_u16(out, rtype);
    push_u16(out, class);
    push_u32(out, ttl);
    push_u16(out, rdlength);
    push_all(out, rdata_raw.as_slice());
    assert(out@ == old(out)@ + record_bytes(name@, rtype, class, ttl, rdlength, rdata_raw@));
    Ok(())
}

impl DnsAnswer {
    /// Decodes the record at the cursor and moves the cursor past its
    /// payload. On failure the cursor stays where it was.
    ///
    /// The payload of an address record is taken as it is, whatever its
    /// length. The name of a record that decodes is valid, and so is the
    /// name that an alias payload decodes to.
    pub fn parse(cursor: &mut Cursor) -> (r: Result<Self, DnsError>)
        ensures
            final(cursor).data@ == old(cursor).data@,
            match r {
                Ok(a) => {
                    &&& answer_at(old(cursor).data@, old(cursor).pos as int) == Ok::<
                        (AnswerView, int),
                        DnsError,
                    >((a@, final(cursor).pos as int))
                    &&& valid_name(a@.name)
                    &&& a@.rdata matches AnswerDataView::DnsName(alias) ==> valid_name(alias)
                },
                Err(e) => {
                    &&& answer_at(old(cursor).data@, old(cursor).pos as int) == Err::<
                        (AnswerView, int),
                        DnsError,
                    >(e)
                    &&& final(cursor).pos == old(cursor).pos
                },
            },
    {
        let origin = cursor.pos;
        let name = match DnsName::parse(cursor) {
            Ok(name) => name,
            Err(e) => {
                return Err(e);
            },
        };
        let rtype = match cursor.read_u16() {
            Ok(x) => x,
            Err(e) => {
                cursor.pos = origin;
                return Err(e);
            },
        };
        let class = match cursor.read_u16() {
            Ok(x) => x,
            Err(e) => {
                cursor.pos = origin;
                return Err(e);
            },
        };
        let ttl = match cursor.read_u32() {
            Ok(x) => x,
            Err(e) => {
                cursor.pos = origin;
                return Err(e);
            },
        };
        let rdlength = match cursor.read_u16() {
            Ok(x) => x,
            Err(e) => {
                cursor.pos = origin;
                return Err(e);
            },
        };
        let start_pos = cursor.pos;
        let rdata_raw = match cursor.read_bytes(rdlength as usize) {
            Ok(raw) => raw,
            Err(e) => {
                cursor.pos = origin;
                return Err(e);
            },
        };
        let end_pos = cursor.pos;
        let rdata = if rtype == TYPE_ADDRESS {
            let mut copy: Vec<u8> = Vec::new();
            push_all(&mut copy, rdata_raw.as_slice());
            DnsAnswerData::IpAddr(copy)
        } else if rtype == TYPE_ALIAS {
            cursor.pos = start_pos;
            match DnsName::parse(cursor) {
                Ok(alias) => {
                    // The declared length decides where the record ends,
                    // whatever the name consumed.
                    cursor.pos = end_pos;
                    DnsAnswerData::DnsName(alias)
                },
                Err(e) => {
                    cursor.pos = origin;
                    return Err(e);
                },
            }
        } else {
            cursor.pos = origin;
            return Err(DnsError::Unsupported);
        };
        Ok(Self { name, rtype, class, ttl, rdlength, rdata, rdata_raw })
    }

    /// The wire form of the record, with the payload bytes as they were
    /// received.
    ///
    /// Fails with `LabelTooLong` exactly when a label of the record's name
    /// has more than 63 bytes.
    pub fn to_bytes(&self) -> (r: Result<Vec<u8>, DnsError>)
        ensures
            match r {
                Ok(bytes) => {
                    &&& encodable(self@.name)
                    &&& bytes@ == record_bytes(
                        self@.name,
                        self@.rtype,
                        self@.class,
                        self@.ttl,
                        self@.rdlength,
                        self@.rdata_raw,
                    )
                },
                Err(e) => !encodable(self@.name) && e == DnsError::LabelTooLong,
            },
    {
        let mut msg: Vec<u8> = Vec::new();
        match push_record(
            &mut msg,
            &self.name,
            self.rtype,
            self.class,
            self.ttl,
            self.rdlength,
            &self.rdata_raw,
        ) {
            Ok(_) => Ok(msg),
            Err(e) => Err(e),
        }
    }
}

} // verus!
